//! Crate-level laws: properties that tie the parser, the derived
//! metrics, and the history together.

use vstd::prelude::*;

use crate::model::{
    cpu_total_spec, has_non_vin_rail, push_value_spec, ram_percent_spec, sat_u64,
    sum_all_rails, sum_non_vin_rails, total_power_spec, RailModel, SnapshotModel, TempModel,
};
use crate::tegrastats::{
    collect_rails, collect_temps, first_cpu_match, first_mem_match, first_util_match, kw_emc,
    kw_gr3d, kw_ram, kw_swap, mem_fields, parse_line_spec,
};

verus! {

/// Any line whose report carries a memory pair `RAM x/yMB` with a
/// positive total parses to a sample, and that sample's RAM usage is
/// x/y expressed in thousandths of a percent (truncating, saturated
/// at `u64`), i.e. 100·x/y percent up to rounding.
pub proof fn lemma_ram_percent_of_line(s: Seq<u8>, x: u64, y: u64)
    requires
        mem_fields(s, kw_ram()) == (Some(x), Some(y)),
        y > 0,
    ensures
        parse_line_spec(s) matches Some(m) && ram_percent_spec(m) == Some(
            sat_u64(x * 100000 / y as int),
        ),
{
}

/// The derived metrics of a sample exist exactly under their stated
/// conditions: a mean core utilization iff any per-core value is
/// present, a RAM percentage iff both memory numbers are present with
/// a positive total, a power total iff any rail is present.
pub proof fn lemma_derived_presence(m: SnapshotModel)
    ensures
        cpu_total_spec(m) is Some <==> m.cpu_cores.len() > 0,
        ram_percent_spec(m) is Some <==> (m.ram_used_mb is Some && m.ram_total_mb is Some
            && m.ram_total_mb->Some_0 > 0),
        total_power_spec(m) is Some <==> m.power_rails.len() > 0,
{
}

/// With at least one rail present, the total power excludes a rail
/// named `VIN` exactly when at least one other rail is present: it is
/// then the sum of the non-`VIN` rails, and the sum of all rails
/// otherwise (each saturated at `u64`).
pub proof fn lemma_total_power_vin_rule(m: SnapshotModel)
    requires
        m.power_rails.len() >= 1,
    ensures
        total_power_spec(m) is Some,
        has_non_vin_rail(m.power_rails) ==> total_power_spec(m) == Some(
            sat_u64(sum_non_vin_rails(m.power_rails)),
        ),
        !has_non_vin_rail(m.power_rails) ==> total_power_spec(m) == Some(
            sat_u64(sum_all_rails(m.power_rails)),
        ),
{
}

/// A history series after a whole sequence of appends, oldest first.
pub open spec fn series_after_all(init: Seq<u64>, pushes: Seq<u64>, cap: int) -> Seq<u64>
    decreases pushes.len(),
{
    if pushes.len() == 0 {
        init
    } else {
        series_after_all(push_value_spec(init, cap, pushes[0]), pushes.skip(1), cap)
    }
}

/// A series within capacity stays a first-in-first-out window: after
/// any sequence of appends it holds the most recent values of the
/// combined stream, at most `cap` of them.
pub proof fn lemma_series_after_all(init: Seq<u64>, pushes: Seq<u64>, cap: int)
    requires
        0 <= cap,
        init.len() <= cap,
    ensures
        series_after_all(init, pushes, cap) == (if init.len() + pushes.len() <= cap {
            init + pushes
        } else {
            (init + pushes).skip(init.len() + pushes.len() - cap)
        }),
    decreases pushes.len(),
{
    let total = init + pushes;
    if pushes.len() == 0 {
        assert(init + pushes =~= init);
    } else {
        let p0 = pushes[0];
        let init1 = push_value_spec(init, cap, p0);
        let rest = pushes.skip(1);
        if cap == 0 {
            assert(init1 == init);
            assert(init =~= Seq::<u64>::empty());
            lemma_series_after_all(init1, rest, cap);
            assert(init1 + rest =~= rest);
            assert(rest.skip(rest.len() as int) =~= Seq::<u64>::empty());
            assert(total.skip(total.len() as int) =~= Seq::<u64>::empty());
            if rest.len() == 0 {
                assert(total.skip(total.len() - cap) =~= Seq::<u64>::empty());
            } else {
                assert((init1 + rest).skip(init1.len() + rest.len() - cap) =~= Seq::<
                    u64,
                >::empty());
                assert(total.skip(total.len() - cap) =~= Seq::<u64>::empty());
            }
        } else if init.len() < cap {
            assert(init1 =~= init.push(p0));
            lemma_series_after_all(init1, rest, cap);
            assert(init1 + rest =~= total);
        } else {
            assert(init1 =~= init.skip(1).push(p0));
            lemma_series_after_all(init1, rest, cap);
            assert(init1 + rest =~= total.skip(1));
            if init1.len() + rest.len() <= cap {
                assert(init1.len() == cap);
                assert(rest.len() == 0);
                assert(total.skip(total.len() - cap) =~= total.skip(1));
            } else {
                assert((total.skip(1)).skip(total.skip(1).len() - cap) =~= total.skip(
                    total.len() - cap,
                ));
            }
        }
    }
}

/// Strict first-in-first-out at capacity: once at least `cap` values
/// have been appended to a series that started within capacity, its
/// length is exactly `cap` and it holds exactly the `cap` most
/// recently appended values, in order.
pub proof fn lemma_history_window(init: Seq<u64>, pushes: Seq<u64>, cap: int)
    requires
        0 <= cap,
        init.len() <= cap,
        pushes.len() >= cap,
    ensures
        series_after_all(init, pushes, cap).len() == cap,
        series_after_all(init, pushes, cap) == pushes.skip(pushes.len() - cap),
{
    lemma_series_after_all(init, pushes, cap);
    let total = init + pushes;
    if init.len() + pushes.len() <= cap {
        assert(init =~= Seq::<u64>::empty());
        assert(total =~= pushes.skip(pushes.len() - cap));
    } else {
        assert(total.skip(init.len() + pushes.len() - cap) =~= pushes.skip(
            pushes.len() - cap,
        ));
    }
}

/// A line in which no token of the grammar occurs yields no sample.
pub proof fn lemma_no_tokens_no_sample(s: Seq<u8>)
    requires
        first_mem_match(s, kw_ram(), 0) is None,
        first_mem_match(s, kw_swap(), 0) is None,
        first_cpu_match(s, 0) is None,
        first_util_match(s, kw_gr3d(), 0) is None,
        first_util_match(s, kw_emc(), 0) is None,
        collect_temps(s, 0) == Seq::<TempModel>::empty(),
        collect_rails(s, 0) == Seq::<RailModel>::empty(),
    ensures
        parse_line_spec(s) is None,
{
}

} // verus!
