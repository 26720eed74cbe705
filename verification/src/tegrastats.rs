//! The report-line parser: one line of telemetry text to an optional
//! structured sample.
//!
//! The grammar is stated over the line's UTF-8 bytes and each field is
//! extracted independently from the same line: memory pairs
//! (`RAM <used>/<total>MB`, `SWAP <used>/<total>MB`), the bracketed
//! per-core utilization list, single-value utilization percentages,
//! and the repeated temperature (`name@valueC`) and power-rail
//! (`NAME <cur>mW/<avg>mW`) tokens.

use vstd::prelude::*;
use vstd::string::StringSliceAdditionalSpecFns;

use crate::model::{PowerRail, RailModel, SnapshotModel, StatsSnapshot, TempModel, TempReading};

verus! {

/// The byte classes of the grammar.
#[derive(Clone, Copy, Debug)]
pub enum ByteClass {
    /// `0`..`9`
    Digit,
    /// ASCII whitespace: space, tab, line feed, vertical tab, form
    /// feed, carriage return
    Space,
    /// `A`..`Z`, `a`..`z`, `0`..`9`, `_`: a temperature sensor name
    TempName,
    /// `A`..`Z`, `0`..`9`, `_`: a power rail name
    RailName,
    /// Anything but `]`: the inside of the bracketed core list
    NotCloseBracket,
}

pub open spec fn in_class(b: u8, c: ByteClass) -> bool {
    match c {
        ByteClass::Digit => 48 <= b <= 57,
        ByteClass::Space => b == 32 || 9 <= b <= 13,
        ByteClass::TempName => 48 <= b <= 57 || 65 <= b <= 90 || 97 <= b <= 122 || b == 95,
        ByteClass::RailName => 48 <= b <= 57 || 65 <= b <= 90 || b == 95,
        ByteClass::NotCloseBracket => b != 93,
    }
}

/// End of the maximal run of bytes of class `c` starting at `i`.
pub open spec fn run_end(s: Seq<u8>, i: int, c: ByteClass) -> int
    decreases s.len() - i,
    when 0 <= i <= s.len()
{
    if i >= s.len() {
        i
    } else if in_class(s[i], c) {
        run_end(s, i + 1, c)
    } else {
        i
    }
}

/// A maximal run: within bounds, all members in the class, and ended
/// by the end of the text or a byte outside the class.
pub proof fn lemma_run_end(s: Seq<u8>, i: int, c: ByteClass)
    requires
        0 <= i <= s.len(),
    ensures
        i <= run_end(s, i, c) <= s.len(),
        forall|k: int| i <= k < run_end(s, i, c) ==> in_class(s[k], c),
        run_end(s, i, c) < s.len() ==> !in_class(s[run_end(s, i, c)], c),
    decreases s.len() - i,
{
    if i < s.len() && in_class(s[i], c) {
        lemma_run_end(s, i + 1, c);
    }
}

fn byte_in_class(b: u8, c: ByteClass) -> (r: bool)
    ensures
        r == in_class(b, c),
{
    match c {
        ByteClass::Digit => 48 <= b && b <= 57,
        ByteClass::Space => b == 32 || (9 <= b && b <= 13),
        ByteClass::TempName => (48 <= b && b <= 57) || (65 <= b && b <= 90) || (97 <= b && b
            <= 122) || b == 95,
        ByteClass::RailName => (48 <= b && b <= 57) || (65 <= b && b <= 90) || b == 95,
        ByteClass::NotCloseBracket => b != 93,
    }
}

fn find_run_end(s: &[u8], i: usize, c: ByteClass) -> (r: usize)
    requires
        i <= s@.len(),
    ensures
        r == run_end(s@, i as int, c),
        i <= r <= s@.len(),
{
    let mut j = i;
    while j < s.len() && byte_in_class(s[j], c)
        invariant
            i <= j <= s@.len(),
            run_end(s@, i as int, c) == run_end(s@, j as int, c),
        decreases s@.len() - j,
    {
        j = j + 1;
    }
    proof {
        assert(run_end(s@, j as int, c) == j as int);
    }
    j
}

/// The literal `lit` occurs in `s` at position `i`.
pub open spec fn matches_at(s: Seq<u8>, i: int, lit: Seq<u8>) -> bool {
    0 <= i && i + lit.len() <= s.len() && s.subrange(i, i + lit.len()) == lit
}

fn lit_at(s: &[u8], i: usize, lit: &[u8]) -> (r: bool)
    ensures
        r == matches_at(s@, i as int, lit@),
{
    let slen = s.len();
    if i > slen || slen - i < lit.len() {
        return false;
    }
    let mut j: usize = 0;
    while j < lit.len()
        invariant
            i + lit@.len() <= s@.len(),
            s@.len() <= slen,
            0 <= j <= lit@.len(),
            forall|k: int| 0 <= k < j ==> s@[i + k] == lit@[k],
        decreases lit@.len() - j,
    {
        if s[i + j] != lit[j] {
            proof {
                assert(s@.subrange(i as int, i + lit@.len())[j as int] == s@[i + j]);
            }
            return false;
        }
        j = j + 1;
    }
    proof {
        assert(s@.subrange(i as int, i + lit@.len()) =~= lit@);
    }
    true
}

/// Numeric value of a digit string, most significant digit first.
pub open spec fn digits_val(ds: Seq<u8>) -> int
    decreases ds.len(),
{
    if ds.len() == 0 {
        0
    } else {
        digits_val(ds.drop_last()) * 10 + (ds.last() - 48)
    }
}

pub open spec fn all_digits(ds: Seq<u8>) -> bool {
    forall|k: int| 0 <= k < ds.len() ==> in_class(ds[k], ByteClass::Digit)
}

pub proof fn lemma_digits_val_nonneg(ds: Seq<u8>)
    requires
        all_digits(ds),
    ensures
        digits_val(ds) >= 0,
    decreases ds.len(),
{
    if ds.len() > 0 {
        assert(forall|k: int|
            0 <= k < ds.drop_last().len() ==> in_class(ds.drop_last()[k], ByteClass::Digit));
        lemma_digits_val_nonneg(ds.drop_last());
    }
}

/// Powers of ten.
pub open spec fn pow10(n: nat) -> int
    decreases n,
{
    if n == 0 {
        1
    } else {
        10 * pow10((n - 1) as nat)
    }
}

pub proof fn lemma_digits_val_upper(ds: Seq<u8>)
    requires
        all_digits(ds),
    ensures
        digits_val(ds) < pow10(ds.len()),
    decreases ds.len(),
{
    if ds.len() > 0 {
        assert(forall|k: int|
            0 <= k < ds.drop_last().len() ==> in_class(ds.drop_last()[k], ByteClass::Digit));
        lemma_digits_val_upper(ds.drop_last());
    }
}

/// A prefix of a digit string is numerically no larger than the whole.
pub proof fn lemma_digits_val_prefix_le(ds: Seq<u8>, k: int)
    requires
        all_digits(ds),
        0 <= k <= ds.len(),
    ensures
        digits_val(ds.take(k)) <= digits_val(ds),
    decreases ds.len(),
{
    if k == ds.len() {
        assert(ds.take(k) =~= ds);
    } else {
        assert(ds.take(k) =~= ds.drop_last().take(k));
        assert(forall|j: int|
            0 <= j < ds.drop_last().len() ==> in_class(ds.drop_last()[j], ByteClass::Digit));
        lemma_digits_val_prefix_le(ds.drop_last(), k);
        lemma_digits_val_nonneg(ds.drop_last());
    }
}

/// `Some` exactly when the value of the digit string fits in `u64`.
pub open spec fn digits_to_u64(ds: Seq<u8>) -> Option<u64> {
    if digits_val(ds) <= u64::MAX {
        Some(digits_val(ds) as u64)
    } else {
        None
    }
}

fn parse_digits_u64(s: &[u8], from: usize, to: usize) -> (r: Option<u64>)
    requires
        from <= to <= s@.len(),
        all_digits(s@.subrange(from as int, to as int)),
    ensures
        r == digits_to_u64(s@.subrange(from as int, to as int)),
{
    let ghost ds = s@.subrange(from as int, to as int);
    let mut acc: u64 = 0;
    let mut j = from;
    while j < to
        invariant
            from <= j <= to <= s@.len(),
            ds == s@.subrange(from as int, to as int),
            all_digits(ds),
            acc == digits_val(ds.take(j - from)),
        decreases to - j,
    {
        proof {
            assert(ds[j - from] == s@[j as int]);
            assert(ds.take(j - from + 1).drop_last() =~= ds.take(j - from));
            assert(ds.take(j - from + 1).last() == ds[j - from]);
        }
        let d = s[j] - 48;
        if acc > (u64::MAX - d as u64) / 10 {
            proof {
                vstd::arithmetic::div_mod::lemma_fundamental_div_mod(
                    u64::MAX - d as u8 as int,
                    10,
                );
                assert(digits_val(ds.take(j - from + 1)) > u64::MAX);
                lemma_digits_val_prefix_le(ds, j - from + 1);
            }
            return None;
        }
        proof {
            vstd::arithmetic::div_mod::lemma_fundamental_div_mod(u64::MAX - d as u8 as int, 10);
        }
        acc = acc * 10 + d as u64;
        j = j + 1;
    }
    proof {
        assert(ds.take(to - from) =~= ds);
    }
    Some(acc)
}

/// A decimal value with integer and fraction digit parts, expressed in
/// thousandths; `Some` exactly when it fits in `u32`.
pub open spec fn milli_from_parts(int_digits: Seq<u8>, frac: Seq<u8>) -> Option<u32> {
    let v = digits_val(int_digits) * 1000 + frac_thousandths(frac);
    if v <= u32::MAX {
        Some(v as u32)
    } else {
        None
    }
}

/// The first three fraction digits as thousandths; digits past the
/// third are truncated.
pub open spec fn frac_thousandths(frac: Seq<u8>) -> int {
    if frac.len() == 0 {
        0
    } else if frac.len() == 1 {
        digits_val(frac) * 100
    } else if frac.len() == 2 {
        digits_val(frac) * 10
    } else {
        digits_val(frac.take(3))
    }
}

pub proof fn lemma_frac_thousandths_bounds(frac: Seq<u8>)
    requires
        all_digits(frac),
    ensures
        0 <= frac_thousandths(frac) <= 999,
{
    assert(pow10(0) == 1 && pow10(1) == 10 && pow10(2) == 100 && pow10(3) == 1000) by {
        reveal_with_fuel(pow10, 4);
    };
    if frac.len() == 0 {
    } else if frac.len() == 1 {
        lemma_digits_val_nonneg(frac);
        lemma_digits_val_upper(frac);
    } else if frac.len() == 2 {
        lemma_digits_val_nonneg(frac);
        lemma_digits_val_upper(frac);
    } else {
        assert(forall|k: int|
            0 <= k < frac.take(3).len() ==> in_class(frac.take(3)[k], ByteClass::Digit));
        lemma_digits_val_nonneg(frac.take(3));
        lemma_digits_val_upper(frac.take(3));
    }
}

fn milli_value(s: &[u8], a: usize, b: usize, c: usize, d: usize) -> (r: Option<u32>)
    requires
        a <= b <= s@.len(),
        c <= d <= s@.len(),
        all_digits(s@.subrange(a as int, b as int)),
        all_digits(s@.subrange(c as int, d as int)),
    ensures
        r == milli_from_parts(s@.subrange(a as int, b as int), s@.subrange(c as int, d as int)),
{
    let ghost int_digits = s@.subrange(a as int, b as int);
    let ghost frac = s@.subrange(c as int, d as int);
    proof {
        lemma_frac_thousandths_bounds(frac);
        lemma_digits_val_nonneg(int_digits);
    }
    let iv = match parse_digits_u64(s, a, b) {
        Some(v) => v,
        None => {
            return None;
        },
    };
    let flen = d - c;
    let taken = if flen > 3 {
        3usize
    } else {
        flen
    };
    proof {
        let fds = s@.subrange(c as int, c + taken as int);
        assert forall|k: int| 0 <= k < fds.len() implies in_class(fds[k], ByteClass::Digit) by {
            assert(fds[k] == frac[k]);
        }
        lemma_digits_val_nonneg(fds);
        lemma_digits_val_upper(fds);
        assert(pow10(0) == 1 && pow10(1) == 10 && pow10(2) == 100 && pow10(3) == 1000) by {
            reveal_with_fuel(pow10, 4);
        };
        if taken >= 3 {
            assert(fds =~= frac.take(3));
        } else {
            assert(fds =~= frac);
        }
    }
    let fr = match parse_digits_u64(s, c, c + taken) {
        Some(v) => v,
        None => {
            proof {
                assert(false);
            }
            return None;
        },
    };
    let fr_milli: u64 = if flen == 0 {
        0
    } else if flen == 1 {
        fr * 100
    } else if flen == 2 {
        fr * 10
    } else {
        fr
    };
    proof {
        assert(fr_milli == frac_thousandths(frac));
    }
    if iv > (u32::MAX as u64) {
        return None;
    }
    let v = iv * 1000 + fr_milli;
    if v > u32::MAX as u64 {
        None
    } else {
        Some(v as u32)
    }
}

/// Bytes of the memory pair keyword `RAM`.
pub open spec fn kw_ram() -> Seq<u8> {
    seq![82u8, 65, 77]
}

/// Bytes of the memory pair keyword `SWAP`.
pub open spec fn kw_swap() -> Seq<u8> {
    seq![83u8, 87, 65, 80]
}

/// Bytes of the per-core list keyword `CPU`.
pub open spec fn kw_cpu() -> Seq<u8> {
    seq![67u8, 80, 85]
}

/// Bytes of the GPU utilization keyword `GR3D_FREQ`.
pub open spec fn kw_gr3d() -> Seq<u8> {
    seq![71u8, 82, 51, 68, 95, 70, 82, 69, 81]
}

/// Bytes of the memory-controller utilization keyword `EMC_FREQ`.
pub open spec fn kw_emc() -> Seq<u8> {
    seq![69u8, 77, 67, 95, 70, 82, 69, 81]
}

/// Bytes of the megabyte suffix `MB`.
pub open spec fn kw_mb() -> Seq<u8> {
    seq![77u8, 66]
}

/// Bytes of the milliwatt separator `mW/`.
pub open spec fn kw_mw_slash() -> Seq<u8> {
    seq![109u8, 87, 47]
}

/// Bytes of the milliwatt suffix `mW`.
pub open spec fn kw_mw() -> Seq<u8> {
    seq![109u8, 87]
}

fn kw_ram_vec() -> (r: Vec<u8>)
    ensures
        r@ == kw_ram(),
{
    let mut v: Vec<u8> = Vec::new();
    v.push(82);
    v.push(65);
    v.push(77);
    proof {
        assert(v@ =~= kw_ram());
    }
    v
}

fn kw_swap_vec() -> (r: Vec<u8>)
    ensures
        r@ == kw_swap(),
{
    let mut v: Vec<u8> = Vec::new();
    v.push(83);
    v.push(87);
    v.push(65);
    v.push(80);
    proof {
        assert(v@ =~= kw_swap());
    }
    v
}

fn kw_cpu_vec() -> (r: Vec<u8>)
    ensures
        r@ == kw_cpu(),
{
    let mut v: Vec<u8> = Vec::new();
    v.push(67);
    v.push(80);
    v.push(85);
    proof {
        assert(v@ =~= kw_cpu());
    }
    v
}

fn kw_gr3d_vec() -> (r: Vec<u8>)
    ensures
        r@ == kw_gr3d(),
{
    let mut v: Vec<u8> = Vec::new();
    v.push(71);
    v.push(82);
    v.push(51);
    v.push(68);
    v.push(95);
    v.push(70);
    v.push(82);
    v.push(69);
    v.push(81);
    proof {
        assert(v@ =~= kw_gr3d());
    }
    v
}

fn kw_emc_vec() -> (r: Vec<u8>)
    ensures
        r@ == kw_emc(),
{
    let mut v: Vec<u8> = Vec::new();
    v.push(69);
    v.push(77);
    v.push(67);
    v.push(95);
    v.push(70);
    v.push(82);
    v.push(69);
    v.push(81);
    proof {
        assert(v@ =~= kw_emc());
    }
    v
}

fn kw_mb_vec() -> (r: Vec<u8>)
    ensures
        r@ == kw_mb(),
{
    let mut v: Vec<u8> = Vec::new();
    v.push(77);
    v.push(66);
    proof {
        assert(v@ =~= kw_mb());
    }
    v
}

fn kw_mw_slash_vec() -> (r: Vec<u8>)
    ensures
        r@ == kw_mw_slash(),
{
    let mut v: Vec<u8> = Vec::new();
    v.push(109);
    v.push(87);
    v.push(47);
    proof {
        assert(v@ =~= kw_mw_slash());
    }
    v
}

fn kw_mw_vec() -> (r: Vec<u8>)
    ensures
        r@ == kw_mw(),
{
    let mut v: Vec<u8> = Vec::new();
    v.push(109);
    v.push(87);
    proof {
        assert(v@ =~= kw_mw());
    }
    v
}

/// Position after the space run that follows the keyword at `i`.
pub open spec fn mem_sp(s: Seq<u8>, kw: Seq<u8>, i: int) -> int {
    run_end(s, i + kw.len(), ByteClass::Space)
}

/// End of the first digit run of a memory pair at `i`.
pub open spec fn mem_d1(s: Seq<u8>, kw: Seq<u8>, i: int) -> int {
    run_end(s, mem_sp(s, kw, i), ByteClass::Digit)
}

/// End of the second digit run of a memory pair at `i`.
pub open spec fn mem_d2(s: Seq<u8>, kw: Seq<u8>, i: int) -> int {
    run_end(s, mem_d1(s, kw, i) + 1, ByteClass::Digit)
}

/// `<kw> <used>/<total>MB` occurs at position `i`: the keyword, at
/// least one space, a digit run, `/`, a digit run, and `MB`.
pub open spec fn mem_match_at(s: Seq<u8>, kw: Seq<u8>, i: int) -> bool {
    let a = i + kw.len();
    let sp = mem_sp(s, kw, i);
    let d1 = mem_d1(s, kw, i);
    let d2 = mem_d2(s, kw, i);
    &&& matches_at(s, i, kw)
    &&& sp > a
    &&& d1 > sp
    &&& d1 < s.len() && s[d1] == 47
    &&& d2 > d1 + 1
    &&& matches_at(s, d2, kw_mb())
}

/// Position of the leftmost memory pair for `kw` at or after `i`.
pub open spec fn first_mem_match(s: Seq<u8>, kw: Seq<u8>, i: int) -> Option<int>
    decreases s.len() - i,
    when 0 <= i <= s.len()
{
    if i >= s.len() {
        None
    } else if mem_match_at(s, kw, i) {
        Some(i)
    } else {
        first_mem_match(s, kw, i + 1)
    }
}

/// The two numbers of the leftmost memory pair for `kw`; a side is
/// `None` when no pair occurs or when its digits overflow `u64`.
pub open spec fn mem_fields(s: Seq<u8>, kw: Seq<u8>) -> (Option<u64>, Option<u64>) {
    match first_mem_match(s, kw, 0) {
        None => (None, None),
        Some(i) => (
            digits_to_u64(s.subrange(mem_sp(s, kw, i), mem_d1(s, kw, i))),
            digits_to_u64(s.subrange(mem_d1(s, kw, i) + 1, mem_d2(s, kw, i))),
        ),
    }
}

/// A subrange of bytes that all lie in `Digit` is a digit string.
pub proof fn lemma_all_digits_subrange(s: Seq<u8>, a: int, b: int)
    requires
        0 <= a <= b <= s.len(),
        forall|k: int| a <= k < b ==> in_class(s[k], ByteClass::Digit),
    ensures
        all_digits(s.subrange(a, b)),
{
    assert forall|k: int| 0 <= k < s.subrange(a, b).len() implies in_class(
        #[trigger] s.subrange(a, b)[k],
        ByteClass::Digit,
    ) by {
        assert(s.subrange(a, b)[k] == s[a + k]);
    }
}

fn check_mem_at(s: &[u8], kw: &[u8], mb: &[u8], i: usize) -> (r: bool)
    requires
        i <= s@.len(),
        mb@ == kw_mb(),
    ensures
        r == mem_match_at(s@, kw@, i as int),
{
    let slen = s.len();
    if !lit_at(s, i, kw) {
        return false;
    }
    let a = i + kw.len();
    let sp = find_run_end(s, a, ByteClass::Space);
    if sp == a {
        return false;
    }
    let d1 = find_run_end(s, sp, ByteClass::Digit);
    if d1 == sp {
        return false;
    }
    if d1 >= slen || s[d1] != 47 {
        return false;
    }
    let d2 = find_run_end(s, d1 + 1, ByteClass::Digit);
    if d2 == d1 + 1 {
        return false;
    }
    lit_at(s, d2, mb)
}

fn find_mem(s: &[u8], kw: &[u8], mb: &[u8]) -> (r: (Option<u64>, Option<u64>))
    requires
        mb@ == kw_mb(),
    ensures
        r == mem_fields(s@, kw@),
{
    let slen = s.len();
    let mut i: usize = 0;
    while i < slen
        invariant
            slen == s@.len(),
            0 <= i <= slen,
            mb@ == kw_mb(),
            first_mem_match(s@, kw@, 0) == first_mem_match(s@, kw@, i as int),
        decreases slen - i,
    {
        if check_mem_at(s, kw, mb, i) {
            let a = i + kw.len();
            let sp = find_run_end(s, a, ByteClass::Space);
            let d1 = find_run_end(s, sp, ByteClass::Digit);
            let d2 = find_run_end(s, d1 + 1, ByteClass::Digit);
            proof {
                assert(first_mem_match(s@, kw@, i as int) == Some(i as int));
                lemma_run_end(s@, sp as int, ByteClass::Digit);
                lemma_run_end(s@, d1 + 1, ByteClass::Digit);
                lemma_all_digits_subrange(s@, sp as int, d1 as int);
                lemma_all_digits_subrange(s@, d1 + 1, d2 as int);
            }
            let used = parse_digits_u64(s, sp, d1);
            let total = parse_digits_u64(s, d1 + 1, d2);
            return (used, total);
        }
        proof {
            assert(first_mem_match(s@, kw@, i as int) == first_mem_match(s@, kw@, i + 1));
        }
        i = i + 1;
    }
    proof {
        assert(first_mem_match(s@, kw@, slen as int) is None);
    }
    (None, None)
}

/// Position after the space run that follows a utilization keyword.
pub open spec fn util_sp(s: Seq<u8>, kw: Seq<u8>, i: int) -> int {
    run_end(s, i + kw.len(), ByteClass::Space)
}

/// End of the digit run of a utilization token at `i`.
pub open spec fn util_d(s: Seq<u8>, kw: Seq<u8>, i: int) -> int {
    run_end(s, util_sp(s, kw, i), ByteClass::Digit)
}

/// `<kw> <value>%` occurs at position `i`.
pub open spec fn util_match_at(s: Seq<u8>, kw: Seq<u8>, i: int) -> bool {
    let a = i + kw.len();
    let sp = util_sp(s, kw, i);
    let d = util_d(s, kw, i);
    &&& matches_at(s, i, kw)
    &&& sp > a
    &&& d > sp
    &&& d < s.len() && s[d] == 37
}

/// Position of the leftmost utilization token for `kw` at or after `i`.
pub open spec fn first_util_match(s: Seq<u8>, kw: Seq<u8>, i: int) -> Option<int>
    decreases s.len() - i,
    when 0 <= i <= s.len()
{
    if i >= s.len() {
        None
    } else if util_match_at(s, kw, i) {
        Some(i)
    } else {
        first_util_match(s, kw, i + 1)
    }
}

/// The value of the leftmost utilization token for `kw`, in thousandths
/// of a percent; `None` when no token occurs or the value overflows.
pub open spec fn util_field(s: Seq<u8>, kw: Seq<u8>) -> Option<u32> {
    match first_util_match(s, kw, 0) {
        None => None,
        Some(i) => milli_from_parts(
            s.subrange(util_sp(s, kw, i), util_d(s, kw, i)),
            Seq::empty(),
        ),
    }
}

fn check_util_at(s: &[u8], kw: &[u8], i: usize) -> (r: bool)
    requires
        i <= s@.len(),
    ensures
        r == util_match_at(s@, kw@, i as int),
{
    let slen = s.len();
    if !lit_at(s, i, kw) {
        return false;
    }
    let a = i + kw.len();
    let sp = find_run_end(s, a, ByteClass::Space);
    if sp == a {
        return false;
    }
    let d = find_run_end(s, sp, ByteClass::Digit);
    if d == sp {
        return false;
    }
    d < slen && s[d] == 37
}

fn find_util(s: &[u8], kw: &[u8]) -> (r: Option<u32>)
    ensures
        r == util_field(s@, kw@),
{
    let slen = s.len();
    let mut i: usize = 0;
    while i < slen
        invariant
            slen == s@.len(),
            0 <= i <= slen,
            first_util_match(s@, kw@, 0) == first_util_match(s@, kw@, i as int),
        decreases slen - i,
    {
        if check_util_at(s, kw, i) {
            let a = i + kw.len();
            let sp = find_run_end(s, a, ByteClass::Space);
            let d = find_run_end(s, sp, ByteClass::Digit);
            proof {
                assert(first_util_match(s@, kw@, i as int) == Some(i as int));
                lemma_run_end(s@, sp as int, ByteClass::Digit);
                lemma_all_digits_subrange(s@, sp as int, d as int);
                assert(s@.subrange(d as int, d as int) =~= Seq::<u8>::empty());
            }
            return milli_value(s, sp, d, d, d);
        }
        proof {
            assert(first_util_match(s@, kw@, i as int) == first_util_match(s@, kw@, i + 1));
        }
        i = i + 1;
    }
    proof {
        assert(first_util_match(s@, kw@, slen as int) is None);
    }
    None
}

/// Position after the space run that follows `CPU` at `i`.
pub open spec fn cpu_sp(s: Seq<u8>, i: int) -> int {
    run_end(s, i + 3, ByteClass::Space)
}

/// End of the bracketed list body that starts after `[`.
pub open spec fn cpu_inner_end(s: Seq<u8>, i: int) -> int {
    run_end(s, cpu_sp(s, i) + 1, ByteClass::NotCloseBracket)
}

/// `CPU [<list>]` occurs at position `i`: the keyword, at least one
/// space, `[`, a non-empty bracket body, `]`.
pub open spec fn cpu_match_at(s: Seq<u8>, i: int) -> bool {
    let sp = cpu_sp(s, i);
    let e = cpu_inner_end(s, i);
    &&& matches_at(s, i, kw_cpu())
    &&& sp > i + 3
    &&& sp < s.len() && s[sp] == 91
    &&& e > sp + 1
    &&& e < s.len() && s[e] == 93
}

/// Position of the leftmost core list at or after `i`.
pub open spec fn first_cpu_match(s: Seq<u8>, i: int) -> Option<int>
    decreases s.len() - i,
    when 0 <= i <= s.len()
{
    if i >= s.len() {
        None
    } else if cpu_match_at(s, i) {
        Some(i)
    } else {
        first_cpu_match(s, i + 1)
    }
}


/// The bytes of an ASCII token as characters.
pub open spec fn chars_of(bs: Seq<u8>) -> Seq<char> {
    bs.map_values(|b: u8| b as char)
}

/// Relies on String::from_utf8_lossy: ASCII bytes decode to one
/// character per byte, each the character with that code.
#[verifier::external_body]
fn ascii_bytes_to_string(b: &[u8]) -> (r: String)
    requires
        forall|k: int| 0 <= k < b@.len() ==> b@[k] < 128,
    ensures
        r@ == chars_of(b@),
{
    String::from_utf8_lossy(b).into_owned()
}

/// End of the sensor-name run at `i`.
pub open spec fn temp_name_end(s: Seq<u8>, i: int) -> int {
    run_end(s, i, ByteClass::TempName)
}

/// End of the integer digits of a temperature value (after `@`).
pub open spec fn temp_int_end(s: Seq<u8>, i: int) -> int {
    run_end(s, temp_name_end(s, i) + 1, ByteClass::Digit)
}

/// End of the fraction digits of a temperature value.
pub open spec fn temp_frac_end(s: Seq<u8>, i: int) -> int {
    run_end(s, temp_int_end(s, i) + 1, ByteClass::Digit)
}

/// The value at `i` carries a fraction part `.digits`.
pub open spec fn temp_has_frac(s: Seq<u8>, i: int) -> bool {
    let d = temp_int_end(s, i);
    d < s.len() && s[d] == 46 && temp_frac_end(s, i) > d + 1
}

/// `name@valueC` occurs at `i`: a non-empty name run, `@`, at least
/// one digit, an optional `.digits` fraction, and `C`.
pub open spec fn temp_match_at(s: Seq<u8>, i: int) -> bool {
    let n = temp_name_end(s, i);
    let d = temp_int_end(s, i);
    let f = temp_frac_end(s, i);
    &&& 0 <= i
    &&& n > i
    &&& n < s.len() && s[n] == 64
    &&& d > n + 1
    &&& if temp_has_frac(s, i) {
        f < s.len() && s[f] == 67
    } else {
        d < s.len() && s[d] == 67
    }
}

/// Position just after the temperature token at `i`.
pub open spec fn temp_match_end(s: Seq<u8>, i: int) -> int {
    if temp_has_frac(s, i) {
        temp_frac_end(s, i) + 1
    } else {
        temp_int_end(s, i) + 1
    }
}

/// The value of the temperature token at `i` in thousandths of a
/// degree, `None` when it overflows.
pub open spec fn temp_milli_at(s: Seq<u8>, i: int) -> Option<u32> {
    let n = temp_name_end(s, i);
    let d = temp_int_end(s, i);
    milli_from_parts(
        s.subrange(n + 1, d),
        if temp_has_frac(s, i) {
            s.subrange(d + 1, temp_frac_end(s, i))
        } else {
            Seq::empty()
        },
    )
}

pub proof fn lemma_temp_bounds(s: Seq<u8>, i: int)
    requires
        0 <= i <= s.len(),
        temp_match_at(s, i),
    ensures
        i < temp_name_end(s, i) < s.len(),
        temp_name_end(s, i) + 1 < temp_int_end(s, i) <= s.len(),
        temp_has_frac(s, i) ==> temp_int_end(s, i) + 1 < temp_frac_end(s, i) <= s.len(),
        i < temp_match_end(s, i) <= s.len(),
        all_digits(s.subrange(temp_name_end(s, i) + 1, temp_int_end(s, i))),
        temp_has_frac(s, i) ==> all_digits(
            s.subrange(temp_int_end(s, i) + 1, temp_frac_end(s, i)),
        ),
        forall|k: int| i <= k < temp_name_end(s, i) ==> in_class(s[k], ByteClass::TempName),
{
    lemma_run_end(s, i, ByteClass::TempName);
    let n = temp_name_end(s, i);
    lemma_run_end(s, n + 1, ByteClass::Digit);
    let d = temp_int_end(s, i);
    lemma_all_digits_subrange(s, n + 1, d);
    if temp_has_frac(s, i) {
        lemma_run_end(s, d + 1, ByteClass::Digit);
        lemma_all_digits_subrange(s, d + 1, temp_frac_end(s, i));
    }
}

/// The temperature readings produced by scanning from position `i`:
/// each token contributes a reading when its value fits, and the scan
/// resumes just after the token.
pub open spec fn collect_temps(s: Seq<u8>, i: int) -> Seq<TempModel>
    decreases s.len() - i,
    when 0 <= i <= s.len()
{
    if i >= s.len() {
        Seq::empty()
    } else if temp_match_at(s, i) {
        let e = temp_match_end(s, i);
        let next = if e <= i {
            i + 1
        } else if e > s.len() {
            s.len() as int
        } else {
            e
        };
        let rest = collect_temps(s, next);
        match temp_milli_at(s, i) {
            Some(m) => seq![
                TempModel { name: chars_of(s.subrange(i, temp_name_end(s, i))), milli_c: m },
            ] + rest,
            None => rest,
        }
    } else {
        collect_temps(s, i + 1)
    }
}

fn check_temp_at(s: &[u8], i: usize) -> (r: bool)
    requires
        i <= s@.len(),
    ensures
        r == temp_match_at(s@, i as int),
{
    let slen = s.len();
    let n = find_run_end(s, i, ByteClass::TempName);
    if n == i {
        return false;
    }
    if n >= slen || s[n] != 64 {
        return false;
    }
    let d = find_run_end(s, n + 1, ByteClass::Digit);
    if d == n + 1 {
        return false;
    }
    if d < slen && s[d] == 46 {
        let f = find_run_end(s, d + 1, ByteClass::Digit);
        if f > d + 1 {
            return f < slen && s[f] == 67;
        }
        return false;
    }
    d < slen && s[d] == 67
}

fn collect_temps_exec(s: &[u8]) -> (r: Vec<TempReading>)
    ensures
        r@.map_values(|t: TempReading| t@) == collect_temps(s@, 0),
{
    let slen = s.len();
    let mut out: Vec<TempReading> = Vec::new();
    let mut i: usize = 0;
    while i < slen
        invariant
            slen == s@.len(),
            0 <= i <= slen,
            out@.map_values(|t: TempReading| t@) + collect_temps(s@, i as int) == collect_temps(
                s@,
                0,
            ),
        decreases slen - i,
    {
        if check_temp_at(s, i) {
            proof {
                lemma_temp_bounds(s@, i as int);
            }
            let n = find_run_end(s, i, ByteClass::TempName);
            let d = find_run_end(s, n + 1, ByteClass::Digit);
            let has_frac = if d < slen && s[d] == 46 {
                find_run_end(s, d + 1, ByteClass::Digit) > d + 1
            } else {
                false
            };
            let e: usize;
            let milli: Option<u32>;
            if has_frac {
                let f = find_run_end(s, d + 1, ByteClass::Digit);
                e = f + 1;
                milli = milli_value(s, n + 1, d, d + 1, f);
            } else {
                e = d + 1;
                proof {
                    assert(s@.subrange(d as int, d as int) =~= Seq::<u8>::empty());
                }
                milli = milli_value(s, n + 1, d, d, d);
            }
            let ghost pre = out@.map_values(|t: TempReading| t@);
            match milli {
                Some(m) => {
                    proof {
                        assert forall|k: int| 0 <= k < n as int - i as int implies s@.subrange(
                            i as int,
                            n as int,
                        )[k] < 128 by {
                            assert(s@.subrange(i as int, n as int)[k] == s@[i + k]);
                            assert(in_class(s@[i + k], ByteClass::TempName));
                        }
                    }
                    let name_bytes = vstd::slice::slice_subrange(s, i, n);
                    let name = ascii_bytes_to_string(name_bytes);
                    let reading = TempReading { name, value_milli_c: m };
                    let ghost reading_model = reading@;
                    out.push(reading);
                    proof {
                        assert(reading_model == TempModel {
                            name: chars_of(s@.subrange(i as int, n as int)),
                            milli_c: m,
                        });
                        assert(out@.map_values(|t: TempReading| t@) =~= pre.push(reading_model));
                        assert(collect_temps(s@, i as int) == seq![reading_model]
                            + collect_temps(s@, e as int));
                        assert(pre.push(reading_model) + collect_temps(s@, e as int) =~= pre + (
                        seq![reading_model] + collect_temps(s@, e as int)));
                    }
                },
                None => {
                    proof {
                        assert(collect_temps(s@, i as int) == collect_temps(s@, e as int));
                    }
                },
            }
            i = e;
        } else {
            proof {
                assert(collect_temps(s@, i as int) == collect_temps(s@, i + 1));
            }
            i = i + 1;
        }
    }
    proof {
        assert(collect_temps(s@, slen as int) =~= Seq::<TempModel>::empty());
        assert(out@.map_values(|t: TempReading| t@) =~= out@.map_values(|t: TempReading| t@)
            + collect_temps(s@, slen as int));
    }
    out
}

/// End of the rail-name run at `i`.
pub open spec fn rail_name_end(s: Seq<u8>, i: int) -> int {
    run_end(s, i, ByteClass::RailName)
}

/// Position after the space run that follows the rail name.
pub open spec fn rail_sp(s: Seq<u8>, i: int) -> int {
    run_end(s, rail_name_end(s, i), ByteClass::Space)
}

/// End of the instantaneous-draw digit run.
pub open spec fn rail_d1(s: Seq<u8>, i: int) -> int {
    run_end(s, rail_sp(s, i), ByteClass::Digit)
}

/// End of the averaged-draw digit run (after `mW/`).
pub open spec fn rail_d2(s: Seq<u8>, i: int) -> int {
    run_end(s, rail_d1(s, i) + 3, ByteClass::Digit)
}

/// `NAME <cur>mW/<avg>mW` occurs at `i`: a non-empty uppercase name
/// run, at least one space, digits, `mW/`, digits, `mW`.
pub open spec fn rail_match_at(s: Seq<u8>, i: int) -> bool {
    let n = rail_name_end(s, i);
    let sp = rail_sp(s, i);
    let d1 = rail_d1(s, i);
    let d2 = rail_d2(s, i);
    &&& 0 <= i
    &&& n > i
    &&& sp > n
    &&& d1 > sp
    &&& matches_at(s, d1, kw_mw_slash())
    &&& d2 > d1 + 3
    &&& matches_at(s, d2, kw_mw())
}

/// Position just after the power-rail token at `i`.
pub open spec fn rail_match_end(s: Seq<u8>, i: int) -> int {
    rail_d2(s, i) + 2
}

pub proof fn lemma_rail_bounds(s: Seq<u8>, i: int)
    requires
        0 <= i <= s.len(),
        rail_match_at(s, i),
    ensures
        i < rail_name_end(s, i) < s.len(),
        rail_name_end(s, i) < rail_sp(s, i) <= s.len(),
        rail_sp(s, i) < rail_d1(s, i) <= s.len(),
        rail_d1(s, i) + 3 < rail_d2(s, i) <= s.len(),
        i < rail_match_end(s, i) <= s.len(),
        all_digits(s.subrange(rail_sp(s, i), rail_d1(s, i))),
        all_digits(s.subrange(rail_d1(s, i) + 3, rail_d2(s, i))),
        forall|k: int| i <= k < rail_name_end(s, i) ==> in_class(s[k], ByteClass::RailName),
{
    lemma_run_end(s, i, ByteClass::RailName);
    let n = rail_name_end(s, i);
    lemma_run_end(s, n, ByteClass::Space);
    let sp = rail_sp(s, i);
    lemma_run_end(s, sp, ByteClass::Digit);
    let d1 = rail_d1(s, i);
    lemma_all_digits_subrange(s, sp, d1);
    lemma_run_end(s, d1 + 3, ByteClass::Digit);
    let d2 = rail_d2(s, i);
    lemma_all_digits_subrange(s, d1 + 3, d2);
}

/// The power-rail readings produced by scanning from position `i`:
/// each token contributes a rail when both numbers fit in `u64`, and
/// the scan resumes just after the token.
pub open spec fn collect_rails(s: Seq<u8>, i: int) -> Seq<RailModel>
    decreases s.len() - i,
    when 0 <= i <= s.len()
{
    if i >= s.len() {
        Seq::empty()
    } else if rail_match_at(s, i) {
        let e = rail_match_end(s, i);
        let next = if e <= i {
            i + 1
        } else if e > s.len() {
            s.len() as int
        } else {
            e
        };
        let rest = collect_rails(s, next);
        match (
            digits_to_u64(s.subrange(rail_sp(s, i), rail_d1(s, i))),
            digits_to_u64(s.subrange(rail_d1(s, i) + 3, rail_d2(s, i))),
        ) {
            (Some(c), Some(a)) => seq![
                RailModel {
                    name: chars_of(s.subrange(i, rail_name_end(s, i))),
                    current_mw: c,
                    average_mw: a,
                },
            ] + rest,
            _ => rest,
        }
    } else {
        collect_rails(s, i + 1)
    }
}

fn check_rail_at(s: &[u8], mw_slash: &[u8], mw: &[u8], i: usize) -> (r: bool)
    requires
        i <= s@.len(),
        mw_slash@ == kw_mw_slash(),
        mw@ == kw_mw(),
    ensures
        r == rail_match_at(s@, i as int),
{
    let slen = s.len();
    let n = find_run_end(s, i, ByteClass::RailName);
    if n == i {
        return false;
    }
    let sp = find_run_end(s, n, ByteClass::Space);
    if sp == n {
        return false;
    }
    let d1 = find_run_end(s, sp, ByteClass::Digit);
    if d1 == sp {
        return false;
    }
    if !lit_at(s, d1, mw_slash) {
        return false;
    }
    proof {
        assert(d1 + 3 <= slen);
    }
    let d2 = find_run_end(s, d1 + 3, ByteClass::Digit);
    if d2 == d1 + 3 {
        return false;
    }
    lit_at(s, d2, mw)
}

fn collect_rails_exec(s: &[u8], mw_slash: &[u8], mw: &[u8]) -> (r: Vec<PowerRail>)
    requires
        mw_slash@ == kw_mw_slash(),
        mw@ == kw_mw(),
    ensures
        r@.map_values(|p: PowerRail| p@) == collect_rails(s@, 0),
{
    let slen = s.len();
    let mut out: Vec<PowerRail> = Vec::new();
    let mut i: usize = 0;
    while i < slen
        invariant
            slen == s@.len(),
            0 <= i <= slen,
            mw_slash@ == kw_mw_slash(),
            mw@ == kw_mw(),
            out@.map_values(|p: PowerRail| p@) + collect_rails(s@, i as int) == collect_rails(
                s@,
                0,
            ),
        decreases slen - i,
    {
        if check_rail_at(s, mw_slash, mw, i) {
            proof {
                lemma_rail_bounds(s@, i as int);
            }
            let n = find_run_end(s, i, ByteClass::RailName);
            let sp = find_run_end(s, n, ByteClass::Space);
            let d1 = find_run_end(s, sp, ByteClass::Digit);
            let d2 = find_run_end(s, d1 + 3, ByteClass::Digit);
            let e = d2 + 2;
            let cur = parse_digits_u64(s, sp, d1);
            let avg = parse_digits_u64(s, d1 + 3, d2);
            let ghost pre = out@.map_values(|p: PowerRail| p@);
            match (cur, avg) {
                (Some(c), Some(a)) => {
                    proof {
                        assert forall|k: int| 0 <= k < n as int - i as int implies s@.subrange(
                            i as int,
                            n as int,
                        )[k] < 128 by {
                            assert(s@.subrange(i as int, n as int)[k] == s@[i + k]);
                            assert(in_class(s@[i + k], ByteClass::RailName));
                        }
                    }
                    let name_bytes = vstd::slice::slice_subrange(s, i, n);
                    let name = ascii_bytes_to_string(name_bytes);
                    let rail = PowerRail { name, current_mw: c, average_mw: a };
                    let ghost rail_model = rail@;
                    out.push(rail);
                    proof {
                        assert(rail_model == RailModel {
                            name: chars_of(s@.subrange(i as int, n as int)),
                            current_mw: c,
                            average_mw: a,
                        });
                        assert(out@.map_values(|p: PowerRail| p@) =~= pre.push(rail_model));
                        assert(collect_rails(s@, i as int) == seq![rail_model] + collect_rails(
                            s@,
                            e as int,
                        ));
                        assert(pre.push(rail_model) + collect_rails(s@, e as int) =~= pre + (
                        seq![rail_model] + collect_rails(s@, e as int)));
                    }
                },
                _ => {
                    proof {
                        assert(collect_rails(s@, i as int) == collect_rails(s@, e as int));
                    }
                },
            }
            i = e;
        } else {
            proof {
                assert(collect_rails(s@, i as int) == collect_rails(s@, i + 1));
            }
            i = i + 1;
        }
    }
    proof {
        assert(collect_rails(s@, slen as int) =~= Seq::<RailModel>::empty());
        assert(out@.map_values(|p: PowerRail| p@) =~= out@.map_values(|p: PowerRail| p@)
            + collect_rails(s@, slen as int));
    }
    out
}


/// Split a byte string at every occurrence of `sep`; n separators
/// give n+1 entries.
pub open spec fn split_on(bs: Seq<u8>, sep: u8) -> Seq<Seq<u8>>
    decreases bs.len(),
{
    if bs.len() == 0 {
        seq![Seq::<u8>::empty()]
    } else if bs[0] == sep {
        seq![Seq::<u8>::empty()] + split_on(bs.skip(1), sep)
    } else {
        let rest = split_on(bs.skip(1), sep);
        seq![seq![bs[0]] + rest[0]] + rest.skip(1)
    }
}

/// Splitting at the first separator: `k` is the position of the first
/// occurrence of `sep`, or the length when there is none.
pub proof fn lemma_split_on_step(bs: Seq<u8>, sep: u8, k: int)
    requires
        0 <= k <= bs.len(),
        forall|j: int| 0 <= j < k ==> bs[j] != sep,
        k < bs.len() ==> bs[k] == sep,
    ensures
        k == bs.len() ==> split_on(bs, sep) == seq![bs],
        k < bs.len() ==> split_on(bs, sep) == seq![bs.take(k)] + split_on(bs.skip(k + 1), sep),
    decreases k,
{
    if bs.len() == 0 {
        assert(bs =~= Seq::<u8>::empty());
    } else if k == 0 {
        if k < bs.len() {
            assert(bs.take(0) =~= Seq::<u8>::empty());
        }
    } else {
        let tl = bs.skip(1);
        assert(forall|j: int| 0 <= j < k - 1 ==> tl[j] == bs[j + 1]);
        lemma_split_on_step(tl, sep, k - 1);
        let rest = split_on(tl, sep);
        if k == bs.len() {
            assert(seq![bs[0]] + tl =~= bs);
            assert(rest.skip(1) =~= Seq::<Seq<u8>>::empty());
            assert(split_on(bs, sep) =~= seq![bs]);
        } else {
            assert(rest[0] == tl.take(k - 1));
            assert(seq![bs[0]] + tl.take(k - 1) =~= bs.take(k));
            assert(tl.skip(k) =~= bs.skip(k + 1));
            assert(rest.skip(1) =~= split_on(tl.skip(k), sep));
            assert(split_on(bs, sep) =~= seq![bs.take(k)] + split_on(bs.skip(k + 1), sep));
        }
    }
}

/// Drop leading ASCII whitespace.
pub open spec fn trim_left(e: Seq<u8>) -> Seq<u8>
    decreases e.len(),
{
    if e.len() > 0 && in_class(e[0], ByteClass::Space) {
        trim_left(e.skip(1))
    } else {
        e
    }
}

/// Drop trailing ASCII whitespace.
pub open spec fn trim_right(e: Seq<u8>) -> Seq<u8>
    decreases e.len(),
{
    if e.len() > 0 && in_class(e.last(), ByteClass::Space) {
        trim_right(e.drop_last())
    } else {
        e
    }
}

/// Drop ASCII whitespace on both ends.
pub open spec fn trim_spaces(e: Seq<u8>) -> Seq<u8> {
    trim_right(trim_left(e))
}

/// Lower-case an ASCII letter; other bytes are unchanged.
pub open spec fn ascii_lower(b: u8) -> u8 {
    if 65 <= b <= 90 {
        (b + 32) as u8
    } else {
        b
    }
}

/// The literal `off`, ignoring ASCII case.
pub open spec fn is_off_token(t: Seq<u8>) -> bool {
    t.len() == 3 && ascii_lower(t[0]) == 111 && ascii_lower(t[1]) == 102 && ascii_lower(t[2])
        == 102
}

/// The prefix of `t` before the first occurrence of `stop`, or all of
/// `t` when `stop` does not occur.
pub open spec fn before_byte(t: Seq<u8>, stop: u8) -> Seq<u8>
    decreases t.len(),
{
    if t.len() == 0 {
        t
    } else if t[0] == stop {
        Seq::empty()
    } else {
        seq![t[0]] + before_byte(t.skip(1), stop)
    }
}

/// The value of a whole token of shape `digits` or `digits.digits`,
/// in thousandths; `None` for any other shape or on overflow.
#[verifier::opaque]
pub open spec fn decimal_milli(t: Seq<u8>) -> Option<u32> {
    let ip = before_byte(t, 46);
    if ip.len() == 0 || !all_digits(ip) {
        None
    } else if ip.len() == t.len() {
        milli_from_parts(ip, Seq::<u8>::empty())
    } else {
        let frac = t.skip(ip.len() as int + 1);
        if frac.len() == 0 || !all_digits(frac) {
            None
        } else {
            milli_from_parts(ip, frac)
        }
    }
}

/// The value of one core-list entry: `off` (any case) counts as zero;
/// otherwise the part before the first `%`, trimmed, as a decimal in
/// thousandths of a percent; `None` when that fails.
#[verifier::opaque]
pub open spec fn cpu_entry_value(e: Seq<u8>) -> Option<u32> {
    let t = trim_spaces(e);
    if is_off_token(t) {
        Some(0u32)
    } else {
        decimal_milli(trim_spaces(before_byte(t, 37)))
    }
}

/// The values of the parsable entries, in order; entries that fail to
/// parse are dropped.
pub open spec fn entries_values(es: Seq<Seq<u8>>) -> Seq<u32>
    decreases es.len(),
{
    if es.len() == 0 {
        Seq::empty()
    } else {
        match cpu_entry_value(es[0]) {
            Some(v) => seq![v] + entries_values(es.skip(1)),
            None => entries_values(es.skip(1)),
        }
    }
}

/// The per-core utilizations encoded by a comma-separated list body.
pub open spec fn cpu_list_values(bs: Seq<u8>) -> Seq<u32> {
    entries_values(split_on(bs, 44))
}

/// The per-core utilizations of the leftmost `CPU [...]` token, empty
/// when there is none.
pub open spec fn cpu_list_field(s: Seq<u8>) -> Seq<u32> {
    match first_cpu_match(s, 0) {
        None => Seq::empty(),
        Some(i) => cpu_list_values(s.subrange(cpu_sp(s, i) + 1, cpu_inner_end(s, i))),
    }
}

fn ascii_lower_exec(b: u8) -> (r: u8)
    ensures
        r == ascii_lower(b),
{
    if 65 <= b && b <= 90 {
        b + 32
    } else {
        b
    }
}

pub(crate) fn find_byte(s: &[u8], from: usize, to: usize, b: u8) -> (r: usize)
    requires
        from <= to <= s@.len(),
    ensures
        from <= r <= to,
        before_byte(s@.subrange(from as int, to as int), b) == s@.subrange(
            from as int,
            r as int,
        ),
        forall|j: int| from <= j < r ==> s@[j] != b,
        r < to ==> s@[r as int] == b,
{
    let ghost whole = s@.subrange(from as int, to as int);
    let mut k = from;
    while k < to && s[k] != b
        invariant
            from <= k <= to <= s@.len(),
            whole == s@.subrange(from as int, to as int),
            forall|j: int| from <= j < k ==> s@[j] != b,
            before_byte(whole, b) == s@.subrange(from as int, k as int) + before_byte(
                s@.subrange(k as int, to as int),
                b,
            ),
        decreases to - k,
    {
        proof {
            let tail = s@.subrange(k as int, to as int);
            assert(tail[0] == s@[k as int]);
            assert(tail.skip(1) =~= s@.subrange(k + 1, to as int));
            assert(s@.subrange(from as int, k as int) + (seq![s@[k as int]] + before_byte(
                s@.subrange(k + 1, to as int),
                b,
            )) =~= s@.subrange(from as int, k + 1) + before_byte(
                s@.subrange(k + 1, to as int),
                b,
            ));
        }
        k = k + 1;
    }
    proof {
        if k == to {
            assert(before_byte(s@.subrange(k as int, to as int), b) =~= Seq::<u8>::empty());
        } else {
            assert(s@.subrange(k as int, to as int)[0] == s@[k as int]);
        }
        assert(s@.subrange(from as int, k as int) + Seq::<u8>::empty() =~= s@.subrange(
            from as int,
            k as int,
        ));
    }
    k
}

pub(crate) fn skip_spaces_left(s: &[u8], from: usize, to: usize) -> (r: usize)
    requires
        from <= to <= s@.len(),
    ensures
        from <= r <= to,
        trim_left(s@.subrange(from as int, to as int)) == s@.subrange(r as int, to as int),
{
    let mut k = from;
    while k < to && byte_in_class(s[k], ByteClass::Space)
        invariant
            from <= k <= to <= s@.len(),
            trim_left(s@.subrange(from as int, to as int)) == trim_left(
                s@.subrange(k as int, to as int),
            ),
        decreases to - k,
    {
        proof {
            let cur = s@.subrange(k as int, to as int);
            assert(cur[0] == s@[k as int]);
            assert(cur.skip(1) =~= s@.subrange(k + 1, to as int));
        }
        k = k + 1;
    }
    proof {
        let cur = s@.subrange(k as int, to as int);
        if k < to {
            assert(cur[0] == s@[k as int]);
        }
        assert(trim_left(cur) == cur);
    }
    k
}

pub(crate) fn skip_spaces_right(s: &[u8], from: usize, to: usize) -> (r: usize)
    requires
        from <= to <= s@.len(),
    ensures
        from <= r <= to,
        trim_right(s@.subrange(from as int, to as int)) == s@.subrange(from as int, r as int),
{
    let mut k = to;
    while k > from && byte_in_class(s[k - 1], ByteClass::Space)
        invariant
            from <= k <= to <= s@.len(),
            trim_right(s@.subrange(from as int, to as int)) == trim_right(
                s@.subrange(from as int, k as int),
            ),
        decreases k,
    {
        proof {
            let cur = s@.subrange(from as int, k as int);
            assert(cur.last() == s@[k - 1]);
            assert(cur.drop_last() =~= s@.subrange(from as int, k - 1));
        }
        k = k - 1;
    }
    proof {
        let cur = s@.subrange(from as int, k as int);
        if k > from {
            assert(cur.last() == s@[k - 1]);
        }
        assert(trim_right(cur) == cur);
    }
    k
}

fn check_all_digits(s: &[u8], from: usize, to: usize) -> (r: bool)
    requires
        from <= to <= s@.len(),
    ensures
        r == all_digits(s@.subrange(from as int, to as int)),
{
    let mut k = from;
    while k < to
        invariant
            from <= k <= to <= s@.len(),
            forall|j: int| from <= j < k ==> in_class(s@[j], ByteClass::Digit),
        decreases to - k,
    {
        if !(48 <= s[k] && s[k] <= 57) {
            proof {
                assert(s@.subrange(from as int, to as int)[k - from] == s@[k as int]);
            }
            return false;
        }
        k = k + 1;
    }
    proof {
        lemma_all_digits_subrange(s@, from as int, to as int);
    }
    true
}

pub(crate) fn decimal_milli_exec(s: &[u8], from: usize, to: usize) -> (r: Option<u32>)
    requires
        from <= to <= s@.len(),
    ensures
        r == decimal_milli(s@.subrange(from as int, to as int)),
{
    proof {
        reveal(decimal_milli);
    }
    let ghost t = s@.subrange(from as int, to as int);
    let dp = find_byte(s, from, to, 46);
    proof {
        assert(before_byte(t, 46) == s@.subrange(from as int, dp as int));
    }
    if dp == from {
        proof {
            assert(before_byte(t, 46).len() == 0);
        }
        return None;
    }
    if !check_all_digits(s, from, dp) {
        return None;
    }
    if dp == to {
        proof {
            assert(s@.subrange(dp as int, dp as int) =~= Seq::<u8>::empty());
        }
        milli_value(s, from, dp, dp, dp)
    } else {
        proof {
            assert(t.skip(dp - from + 1) =~= s@.subrange(dp + 1, to as int));
        }
        if dp + 1 == to {
            proof {
                assert(s@.subrange(dp + 1, to as int).len() == 0);
            }
            return None;
        }
        if !check_all_digits(s, dp + 1, to) {
            return None;
        }
        milli_value(s, from, dp, dp + 1, to)
    }
}

fn cpu_entry_value_exec(s: &[u8], from: usize, to: usize) -> (r: Option<u32>)
    requires
        from <= to <= s@.len(),
    ensures
        r == cpu_entry_value(s@.subrange(from as int, to as int)),
{
    proof {
        reveal(cpu_entry_value);
    }
    let l = skip_spaces_left(s, from, to);
    let r0 = skip_spaces_right(s, l, to);
    let ghost t = trim_spaces(s@.subrange(from as int, to as int));
    proof {
        assert(t == s@.subrange(l as int, r0 as int));
    }
    let off = if r0 - l == 3 {
        proof {
            assert(t[0] == s@[l as int]);
            assert(t[1] == s@[l + 1]);
            assert(t[2] == s@[l + 2]);
        }
        ascii_lower_exec(s[l]) == 111 && ascii_lower_exec(s[l + 1]) == 102 && ascii_lower_exec(
            s[l + 2],
        ) == 102
    } else {
        false
    };
    proof {
        assert(off == is_off_token(t));
    }
    if off {
        return Some(0);
    }
    let p = find_byte(s, l, r0, 37);
    proof {
        assert(before_byte(t, 37) == s@.subrange(l as int, p as int));
    }
    let l2 = skip_spaces_left(s, l, p);
    let r2 = skip_spaces_right(s, l2, p);
    proof {
        assert(trim_spaces(before_byte(t, 37)) == s@.subrange(l2 as int, r2 as int));
    }
    decimal_milli_exec(s, l2, r2)
}

/// The entry values of a piece whose first comma (if any) stands at
/// `k`: the first entry's value, then the values of the remainder.
pub proof fn lemma_cpu_values_step(piece: Seq<u8>, k: int)
    requires
        0 <= k <= piece.len(),
        forall|j: int| 0 <= j < k ==> piece[j] != 44,
        k < piece.len() ==> piece[k] == 44,
    ensures
        entries_values(split_on(piece, 44)) == (match cpu_entry_value(piece.take(k)) {
            Some(x) => seq![x],
            None => Seq::<u32>::empty(),
        }) + (if k == piece.len() {
            Seq::<u32>::empty()
        } else {
            entries_values(split_on(piece.skip(k + 1), 44))
        }),
{
    lemma_split_on_step(piece, 44, k);
    if k == piece.len() {
        reveal_with_fuel(entries_values, 3);
        let es = seq![piece];
        assert(piece.take(k) =~= piece);
        assert(es.skip(1) =~= Seq::<Seq<u8>>::empty());
        match cpu_entry_value(piece) {
            Some(x) => {
                assert(entries_values(es) =~= seq![x] + Seq::<u32>::empty());
            },
            None => {
                assert(entries_values(es) =~= Seq::<u32>::empty() + Seq::<u32>::empty());
            },
        }
    } else {
        let e = piece.take(k);
        let rest = split_on(piece.skip(k + 1), 44);
        let es = seq![e] + rest;
        assert(es[0] == e);
        assert(es.skip(1) =~= rest);
        match cpu_entry_value(e) {
            Some(x) => {
                assert(entries_values(es) == seq![x] + entries_values(rest));
            },
            None => {
                assert(entries_values(es) =~= Seq::<u32>::empty() + entries_values(rest));
            },
        }
    }
}

pub(crate) fn parse_cpu_list_bytes(s: &[u8], from: usize, to: usize) -> (r: Vec<u32>)
    requires
        from <= to <= s@.len(),
    ensures
        r@ == cpu_list_values(s@.subrange(from as int, to as int)),
{
    let ghost bs = s@.subrange(from as int, to as int);
    let mut out: Vec<u32> = Vec::new();
    let mut st = from;
    let mut finished = false;
    while !finished
        invariant
            from <= st <= to <= s@.len(),
            bs == s@.subrange(from as int, to as int),
            !finished ==> out@ + entries_values(
                split_on(s@.subrange(st as int, to as int), 44),
            ) == entries_values(split_on(bs, 44)),
            finished ==> out@ == entries_values(split_on(bs, 44)),
        decreases to - st, (if finished { 0int } else { 1int }),
    {
        let p = find_byte(s, st, to, 44);
        let ghost piece = s@.subrange(st as int, to as int);
        proof {
            assert forall|j: int| 0 <= j < p - st implies piece[j] != 44 by {
                assert(piece[j] == s@[st + j]);
            }
            if (p as int) < to as int {
                assert(piece[p - st] == s@[p as int]);
            }
            lemma_cpu_values_step(piece, p - st);
            assert(piece.take(p - st) =~= s@.subrange(st as int, p as int));
        }
        let v = cpu_entry_value_exec(s, st, p);
        let ghost pre = out@;
        let ghost head = (match cpu_entry_value(piece.take(p - st)) {
            Some(x) => seq![x],
            None => Seq::<u32>::empty(),
        });
        match v {
            Some(x) => {
                out.push(x);
                proof {
                    assert(out@ =~= pre + head);
                }
            },
            None => {
                proof {
                    assert(out@ =~= pre + head);
                }
            },
        }
        if p == to {
            proof {
                assert(entries_values(split_on(piece, 44)) == head + Seq::<u32>::empty());
                assert(head + Seq::<u32>::empty() =~= head);
            }
            finished = true;
        } else {
            proof {
                let rest = entries_values(split_on(piece.skip(p - st + 1), 44));
                assert(piece.skip(p - st + 1) =~= s@.subrange(p + 1, to as int));
                assert((pre + head) + rest =~= pre + (head + rest));
            }
            st = p + 1;
        }
    }
    out
}

fn check_cpu_at(s: &[u8], cpu: &[u8], i: usize) -> (r: bool)
    requires
        i <= s@.len(),
        cpu@ == kw_cpu(),
    ensures
        r == cpu_match_at(s@, i as int),
{
    let slen = s.len();
    if !lit_at(s, i, cpu) {
        return false;
    }
    let a = i + 3;
    let sp = find_run_end(s, a, ByteClass::Space);
    if sp == a {
        return false;
    }
    if sp >= slen || s[sp] != 91 {
        return false;
    }
    let e = find_run_end(s, sp + 1, ByteClass::NotCloseBracket);
    if e == sp + 1 {
        return false;
    }
    e < slen && s[e] == 93
}

fn find_cpu_list(s: &[u8], cpu: &[u8]) -> (r: Vec<u32>)
    requires
        cpu@ == kw_cpu(),
    ensures
        r@ == cpu_list_field(s@),
{
    let slen = s.len();
    let mut i: usize = 0;
    while i < slen
        invariant
            slen == s@.len(),
            0 <= i <= slen,
            cpu@ == kw_cpu(),
            first_cpu_match(s@, 0) == first_cpu_match(s@, i as int),
        decreases slen - i,
    {
        if check_cpu_at(s, cpu, i) {
            let a = i + 3;
            let sp = find_run_end(s, a, ByteClass::Space);
            let e = find_run_end(s, sp + 1, ByteClass::NotCloseBracket);
            proof {
                assert(first_cpu_match(s@, i as int) == Some(i as int));
            }
            return parse_cpu_list_bytes(s, sp + 1, e);
        }
        proof {
            assert(first_cpu_match(s@, i as int) == first_cpu_match(s@, i + 1));
        }
        i = i + 1;
    }
    proof {
        assert(first_cpu_match(s@, slen as int) is None);
    }
    Vec::new()
}

/// Parse the body of a bracketed core list: comma-separated entries,
/// each a percentage (optionally suffixed with `@frequency`) or the
/// literal `off`; entries that fail to parse are dropped.
pub fn parse_cpu_list(list: &str) -> (r: Vec<u32>)
    ensures
        r@ == cpu_list_values(list.spec_bytes()),
{
    let bs = list.as_bytes();
    let n = bs.len();
    proof {
        assert(bs@.subrange(0, bs@.len() as int) =~= bs@);
    }
    parse_cpu_list_bytes(bs, 0, n)
}


/// The sample model extracted from a line's bytes.
pub open spec fn line_model(s: Seq<u8>) -> SnapshotModel {
    SnapshotModel {
        cpu_cores: cpu_list_field(s),
        ram_used_mb: mem_fields(s, kw_ram()).0,
        ram_total_mb: mem_fields(s, kw_ram()).1,
        swap_used_mb: mem_fields(s, kw_swap()).0,
        swap_total_mb: mem_fields(s, kw_swap()).1,
        gpu_util: util_field(s, kw_gr3d()),
        emc_util: util_field(s, kw_emc()),
        temps: collect_temps(s, 0),
        power_rails: collect_rails(s, 0),
    }
}

/// At least one recognized field is present. A memory pair counts
/// through its used side alone: a pair whose used number failed to
/// parse contributes no data even if its total parsed.
pub open spec fn model_has_data(m: SnapshotModel) -> bool {
    ||| m.cpu_cores.len() > 0
    ||| m.ram_used_mb is Some
    ||| m.swap_used_mb is Some
    ||| m.gpu_util is Some
    ||| m.emc_util is Some
    ||| m.temps.len() > 0
    ||| m.power_rails.len() > 0
}

/// What one line parses to: its sample when at least one recognized
/// field is present, nothing otherwise.
pub open spec fn parse_line_spec(s: Seq<u8>) -> Option<SnapshotModel> {
    if model_has_data(line_model(s)) {
        Some(line_model(s))
    } else {
        None
    }
}

/// The line parser. The grammar is fixed, so the parser carries no
/// state; the type groups construction and parsing.
pub struct TegrastatsParser {}

impl TegrastatsParser {
    pub fn new() -> (r: Self) {
        TegrastatsParser {  }
    }

    /// Parse one report line. Every recognized field found in the line
    /// is filled in; a line with no recognized field yields `None`.
    pub fn parse_line(&self, line: &str) -> (r: Option<StatsSnapshot>)
        ensures
            r is Some <==> parse_line_spec(line.spec_bytes()) is Some,
            r matches Some(snap) ==> parse_line_spec(line.spec_bytes()) == Some(snap@),
    {
        let s = line.as_bytes();
        let ram_kw = kw_ram_vec();
        let swap_kw = kw_swap_vec();
        let cpu_kw = kw_cpu_vec();
        let gr3d_kw = kw_gr3d_vec();
        let emc_kw = kw_emc_vec();
        let mb = kw_mb_vec();
        let mw_slash = kw_mw_slash_vec();
        let mw = kw_mw_vec();
        let (ram_used_mb, ram_total_mb) = find_mem(s, ram_kw.as_slice(), mb.as_slice());
        let (swap_used_mb, swap_total_mb) = find_mem(s, swap_kw.as_slice(), mb.as_slice());
        let cpu_cores = find_cpu_list(s, cpu_kw.as_slice());
        let gpu_util = find_util(s, gr3d_kw.as_slice());
        let emc_util = find_util(s, emc_kw.as_slice());
        let temps = collect_temps_exec(s);
        let power_rails = collect_rails_exec(s, mw_slash.as_slice(), mw.as_slice());
        let has_data = cpu_cores.len() > 0 || ram_used_mb.is_some() || swap_used_mb.is_some()
            || gpu_util.is_some() || emc_util.is_some() || temps.len() > 0
            || power_rails.len() > 0;
        if has_data {
            let snap = StatsSnapshot {
                cpu_cores,
                ram_used_mb,
                ram_total_mb,
                swap_used_mb,
                swap_total_mb,
                gpu_util,
                emc_util,
                temps,
                power_rails,
            };
            proof {
                assert(snap@ =~~= line_model(line.spec_bytes()));
            }
            Some(snap)
        } else {
            None
        }
    }
}

} // verus!




