//! The secondary utilization probe: parsing of the query command's
//! machine-readable output (one value per line, no units) into a
//! single averaged reading.

use vstd::prelude::*;
use vstd::string::StringSliceAdditionalSpecFns;

use crate::model::sum_u32;
use crate::tegrastats::{
    decimal_milli, decimal_milli_exec, find_byte, lemma_split_on_step, skip_spaces_left,
    skip_spaces_right, split_on, trim_spaces,
};

verus! {

/// The parsable readings of the output lines, in thousandths of a
/// percent, in order; lines that fail to parse are dropped.
pub open spec fn line_values(es: Seq<Seq<u8>>) -> Seq<u32>
    decreases es.len(),
{
    if es.len() == 0 {
        Seq::empty()
    } else {
        match decimal_milli(trim_spaces(es[0])) {
            Some(v) => seq![v] + line_values(es.skip(1)),
            None => line_values(es.skip(1)),
        }
    }
}

/// All parsable readings of a poll output, one per line.
pub open spec fn poll_values(bs: Seq<u8>) -> Seq<u32> {
    line_values(split_on(bs, 10))
}

/// The averaged poll reading: the truncating mean of the parsable
/// line values; absent when no line parses.
pub open spec fn poll_average(bs: Seq<u8>) -> Option<u32> {
    let vs = poll_values(bs);
    if vs.len() == 0 {
        None
    } else {
        Some((sum_u32(vs) / vs.len() as int) as u32)
    }
}

fn poll_values_exec(s: &[u8]) -> (r: Vec<u32>)
    ensures
        r@ == poll_values(s@),
{
    let to = s.len();
    proof {
        assert(s@.subrange(0, to as int) =~= s@);
    }
    let mut out: Vec<u32> = Vec::new();
    let mut st: usize = 0;
    let mut finished = false;
    while !finished
        invariant
            0 <= st <= to == s@.len(),
            !finished ==> out@ + line_values(split_on(s@.subrange(st as int, to as int), 10))
                == line_values(split_on(s@, 10)),
            finished ==> out@ == line_values(split_on(s@, 10)),
        decreases to - st, (if finished { 0int } else { 1int }),
    {
        let p = find_byte(s, st, to, 10);
        let ghost piece = s@.subrange(st as int, to as int);
        proof {
            assert forall|j: int| 0 <= j < p - st implies piece[j] != 10 by {
                assert(piece[j] == s@[st + j]);
            }
            if (p as int) < to as int {
                assert(piece[p - st] == s@[p as int]);
            }
            lemma_split_on_step(piece, 10, p - st);
        }
        let l = skip_spaces_left(s, st, p);
        let r0 = skip_spaces_right(s, l, p);
        proof {
            assert(piece.take(p - st) =~= s@.subrange(st as int, p as int));
            assert(trim_spaces(s@.subrange(st as int, p as int)) == s@.subrange(
                l as int,
                r0 as int,
            ));
        }
        let v = decimal_milli_exec(s, l, r0);
        let ghost pre = out@;
        match v {
            Some(x) => {
                out.push(x);
            },
            None => {},
        }
        if p == to {
            proof {
                reveal_with_fuel(line_values, 3);
                assert(split_on(piece, 10) == seq![piece]);
                assert(piece =~= s@.subrange(st as int, p as int));
                let es = seq![piece];
                assert(es.skip(1) =~= Seq::<Seq<u8>>::empty());
                match decimal_milli(trim_spaces(piece)) {
                    Some(x) => {
                        assert(line_values(es) =~= seq![x]);
                        assert(out@ =~= pre.push(x));
                        assert(pre + seq![x] =~= pre.push(x));
                    },
                    None => {
                        assert(line_values(es) =~= Seq::<u32>::empty());
                        assert(pre + Seq::<u32>::empty() =~= pre);
                    },
                }
            }
            finished = true;
        } else {
            proof {
                let e = piece.take(p - st);
                let restbs = piece.skip(p - st + 1);
                assert(restbs =~= s@.subrange(p + 1, to as int));
                let es = seq![e] + split_on(restbs, 10);
                assert(split_on(piece, 10) == es);
                assert(es[0] == e);
                assert(es.skip(1) =~= split_on(restbs, 10));
                assert(e =~= s@.subrange(st as int, p as int));
                match decimal_milli(trim_spaces(e)) {
                    Some(x) => {
                        assert(line_values(es) =~= seq![x] + line_values(split_on(restbs, 10)));
                        assert(out@ =~= pre.push(x));
                        assert(pre.push(x) + line_values(split_on(restbs, 10)) =~= pre + (seq![x]
                            + line_values(split_on(restbs, 10))));
                    },
                    None => {
                        assert(line_values(es) =~= line_values(split_on(restbs, 10)));
                    },
                }
            }
            st = p + 1;
        }
    }
    out
}

/// Parse the output of one utilization query: one reading per line,
/// averaged (truncating) over the lines that parse; `None` when no
/// line holds a parsable value.
pub fn parse_query_output(text: &str) -> (r: Option<u32>)
    ensures
        r == poll_average(text.spec_bytes()),
{
    let bs = text.as_bytes();
    let vs = poll_values_exec(bs);
    let n = vs.len();
    if n == 0 {
        return None;
    }
    let mut sum: u128 = 0;
    let mut i: usize = 0;
    while i < n
        invariant
            n == vs@.len(),
            0 <= i <= n,
            sum == sum_u32(vs@.take(i as int)),
            sum <= i * 0xFFFF_FFFFu128,
        decreases n - i,
    {
        proof {
            assert(vs@.take(i + 1).drop_last() =~= vs@.take(i as int));
            assert(vs@.take(i + 1).last() == vs@[i as int]);
        }
        sum = sum + vs[i] as u128;
        i = i + 1;
    }
    proof {
        assert(vs@.take(n as int) =~= vs@);
        vstd::arithmetic::div_mod::lemma_multiply_divide_le(sum as int, n as int, 0xFFFF_FFFF);
    }
    Some((sum / n as u128) as u32)
}

} // verus!
