//! Data model: parsed samples, derived metrics, bounded history, and the
//! state consumed by the renderer.
//!
//! Fractional quantities (core utilization, single-value utilizations,
//! temperatures) are carried as integers in thousandths of their unit:
//! thousandths of a percent for utilizations, thousandths of a degree
//! Celsius for temperatures. Memory sizes are megabytes and power readings
//! milliwatts, both plain integers.

use std::collections::VecDeque;
use vstd::prelude::*;

verus! {

/// Mathematical model of one power rail reading.
#[verifier::ext_equal]
pub ghost struct RailModel {
    pub name: Seq<char>,
    pub current_mw: u64,
    pub average_mw: u64,
}

/// Mathematical model of one temperature reading.
#[verifier::ext_equal]
pub ghost struct TempModel {
    pub name: Seq<char>,
    pub milli_c: u32,
}

/// Mathematical model of a parsed sample.
#[verifier::ext_equal]
pub ghost struct SnapshotModel {
    pub cpu_cores: Seq<u32>,
    pub ram_used_mb: Option<u64>,
    pub ram_total_mb: Option<u64>,
    pub swap_used_mb: Option<u64>,
    pub swap_total_mb: Option<u64>,
    pub gpu_util: Option<u32>,
    pub emc_util: Option<u32>,
    pub temps: Seq<TempModel>,
    pub power_rails: Seq<RailModel>,
}

/// One power rail: instantaneous and smoothed-average draw in milliwatts.
#[derive(Clone, Debug)]
pub struct PowerRail {
    pub name: String,
    pub current_mw: u64,
    pub average_mw: u64,
}

impl View for PowerRail {
    type V = RailModel;

    open spec fn view(&self) -> RailModel {
        RailModel { name: self.name@, current_mw: self.current_mw, average_mw: self.average_mw }
    }
}

/// One temperature sensor reading, in thousandths of a degree Celsius.
#[derive(Clone, Debug)]
pub struct TempReading {
    pub name: String,
    pub value_milli_c: u32,
}

impl View for TempReading {
    type V = TempModel;

    open spec fn view(&self) -> TempModel {
        TempModel { name: self.name@, milli_c: self.value_milli_c }
    }
}

/// One parsed telemetry report. Every field is independently optional;
/// a missing metric is `None` (or an empty sequence).
#[derive(Clone, Debug)]
pub struct StatsSnapshot {
    /// Per-core utilization, thousandths of a percent, in report order.
    pub cpu_cores: Vec<u32>,
    pub ram_used_mb: Option<u64>,
    pub ram_total_mb: Option<u64>,
    pub swap_used_mb: Option<u64>,
    pub swap_total_mb: Option<u64>,
    /// GPU utilization, thousandths of a percent.
    pub gpu_util: Option<u32>,
    /// Memory-controller utilization, thousandths of a percent.
    pub emc_util: Option<u32>,
    pub temps: Vec<TempReading>,
    pub power_rails: Vec<PowerRail>,
}

impl View for StatsSnapshot {
    type V = SnapshotModel;

    open spec fn view(&self) -> SnapshotModel {
        SnapshotModel {
            cpu_cores: self.cpu_cores@,
            ram_used_mb: self.ram_used_mb,
            ram_total_mb: self.ram_total_mb,
            swap_used_mb: self.swap_used_mb,
            swap_total_mb: self.swap_total_mb,
            gpu_util: self.gpu_util,
            emc_util: self.emc_util,
            temps: self.temps@.map_values(|t: TempReading| t@),
            power_rails: self.power_rails@.map_values(|r: PowerRail| r@),
        }
    }
}

impl Default for StatsSnapshot {
    /// A snapshot with every field absent.
    fn default() -> (r: Self)
        ensures
            r@ == empty_snapshot(),
    {
        let r = StatsSnapshot {
            cpu_cores: Vec::new(),
            ram_used_mb: None,
            ram_total_mb: None,
            swap_used_mb: None,
            swap_total_mb: None,
            gpu_util: None,
            emc_util: None,
            temps: Vec::new(),
            power_rails: Vec::new(),
        };
        proof {
            assert(r@ =~~= empty_snapshot());
        }
        r
    }
}

/// The model of a snapshot with no field present.
pub open spec fn empty_snapshot() -> SnapshotModel {
    SnapshotModel {
        cpu_cores: Seq::empty(),
        ram_used_mb: None,
        ram_total_mb: None,
        swap_used_mb: None,
        swap_total_mb: None,
        gpu_util: None,
        emc_util: None,
        temps: Seq::empty(),
        power_rails: Seq::empty(),
    }
}

/// Sum of a sequence of core utilizations.
pub open spec fn sum_u32(s: Seq<u32>) -> int
    decreases s.len(),
{
    if s.len() == 0 {
        0
    } else {
        sum_u32(s.drop_last()) + s.last()
    }
}

/// The sink rail that aggregates all others and must not be double-counted.
pub open spec fn is_vin(name: Seq<char>) -> bool {
    name == "VIN"@
}

/// Sum of instantaneous draw over all rails.
pub open spec fn sum_all_rails(s: Seq<RailModel>) -> int
    decreases s.len(),
{
    if s.len() == 0 {
        0
    } else {
        sum_all_rails(s.drop_last()) + s.last().current_mw
    }
}

/// Sum of instantaneous draw over the rails not named `VIN`.
pub open spec fn sum_non_vin_rails(s: Seq<RailModel>) -> int
    decreases s.len(),
{
    if s.len() == 0 {
        0
    } else if is_vin(s.last().name) {
        sum_non_vin_rails(s.drop_last())
    } else {
        sum_non_vin_rails(s.drop_last()) + s.last().current_mw
    }
}

/// Whether some rail other than `VIN` is present.
pub open spec fn has_non_vin_rail(s: Seq<RailModel>) -> bool {
    exists|i: int| 0 <= i < s.len() && !is_vin(s[i].name)
}

/// Clamp a non-negative mathematical integer into `u64`.
pub open spec fn sat_u64(x: int) -> u64 {
    if x > u64::MAX {
        u64::MAX
    } else {
        x as u64
    }
}

/// Mean core utilization in thousandths of a percent, truncating;
/// absent when no per-core data is present.
pub open spec fn cpu_total_spec(m: SnapshotModel) -> Option<u32> {
    if m.cpu_cores.len() == 0 {
        None
    } else {
        Some((sum_u32(m.cpu_cores) / m.cpu_cores.len() as int) as u32)
    }
}

/// RAM usage in thousandths of a percent, truncating; defined only when
/// both memory fields are present and the total is positive.
pub open spec fn ram_percent_spec(m: SnapshotModel) -> Option<u64> {
    match (m.ram_used_mb, m.ram_total_mb) {
        (Some(used), Some(total)) => {
            if total > 0 {
                Some(sat_u64(used * 100000int / total as int))
            } else {
                None
            }
        },
        _ => None,
    }
}

/// Total power in milliwatts: absent without rails; otherwise the sum of
/// the non-`VIN` rails when at least one exists, else the sum of all rails.
pub open spec fn total_power_spec(m: SnapshotModel) -> Option<u64> {
    if m.power_rails.len() == 0 {
        None
    } else if has_non_vin_rail(m.power_rails) {
        Some(sat_u64(sum_non_vin_rails(m.power_rails)))
    } else {
        Some(sat_u64(sum_all_rails(m.power_rails)))
    }
}

impl StatsSnapshot {
    /// Mean core utilization, thousandths of a percent.
    pub fn cpu_total(&self) -> (r: Option<u32>)
        ensures
            r == cpu_total_spec(self@),
    {
        let n = self.cpu_cores.len();
        if n == 0 {
            return None;
        }
        let mut sum: u128 = 0;
        let mut i: usize = 0;
        while i < n
            invariant
                n == self.cpu_cores@.len(),
                0 <= i <= n,
                sum == sum_u32(self.cpu_cores@.take(i as int)),
                sum <= i * 0xFFFF_FFFFu128,
            decreases n - i,
        {
            proof {
                assert(self.cpu_cores@.take(i + 1).drop_last() =~= self.cpu_cores@.take(i as int));
                assert(self.cpu_cores@.take(i + 1).last() == self.cpu_cores@[i as int]);
            }
            sum = sum + self.cpu_cores[i] as u128;
            i = i + 1;
        }
        proof {
            assert(self.cpu_cores@.take(n as int) =~= self.cpu_cores@);
            vstd::arithmetic::div_mod::lemma_multiply_divide_le(
                sum as int,
                n as int,
                0xFFFF_FFFF,
            );
        }
        Some((sum / n as u128) as u32)
    }

    /// RAM usage, thousandths of a percent.
    pub fn ram_percent(&self) -> (r: Option<u64>)
        ensures
            r == ram_percent_spec(self@),
    {
        match (self.ram_used_mb, self.ram_total_mb) {
            (Some(used), Some(total)) => {
                if total > 0 {
                    let q: u128 = (used as u128) * 100000 / (total as u128);
                    if q > u64::MAX as u128 {
                        Some(u64::MAX)
                    } else {
                        Some(q as u64)
                    }
                } else {
                    None
                }
            },
            _ => None,
        }
    }

    /// Total power draw in milliwatts, `VIN` excluded whenever another
    /// rail is present.
    pub fn total_power_mw(&self) -> (r: Option<u64>)
        ensures
            r == total_power_spec(self@),
    {
        let n = self.power_rails.len();
        if n == 0 {
            return None;
        }
        let vin: String = "VIN".to_owned();
        let mut sum_non_vin: u128 = 0;
        let mut sum_all: u128 = 0;
        let mut has_non_vin = false;
        let mut i: usize = 0;
        while i < n
            invariant
                n == self.power_rails@.len(),
                0 <= i <= n,
                vin@ == "VIN"@,
                sum_non_vin == sum_non_vin_rails(self@.power_rails.take(i as int)),
                sum_all == sum_all_rails(self@.power_rails.take(i as int)),
                has_non_vin == has_non_vin_rail(self@.power_rails.take(i as int)),
                sum_non_vin <= i * 0x1_0000_0000_0000_0000u128,
                sum_all <= i * 0x1_0000_0000_0000_0000u128,
            decreases n - i,
        {
            proof {
                assert(self@.power_rails.take(i + 1).drop_last() =~= self@.power_rails.take(
                    i as int,
                ));
                assert(self@.power_rails.take(i + 1).last() == self@.power_rails[i as int]);
            }
            let rail = &self.power_rails[i];
            sum_all = sum_all + rail.current_mw as u128;
            if !(rail.name == vin) {
                has_non_vin = true;
                sum_non_vin = sum_non_vin + rail.current_mw as u128;
            }
            proof {
                let pre = self@.power_rails.take(i as int);
                let cur = self@.power_rails.take(i + 1);
                assert(has_non_vin_rail(cur) == (has_non_vin_rail(pre) || !is_vin(
                    cur[i as int].name,
                ))) by {
                    if has_non_vin_rail(pre) {
                        let w = choose|w: int| 0 <= w < pre.len() && !is_vin(pre[w].name);
                        assert(0 <= w < cur.len() && !is_vin(cur[w].name));
                    } else if !is_vin(cur[i as int].name) {
                        assert(0 <= i < cur.len());
                    } else if has_non_vin_rail(cur) {
                        let w = choose|w: int| 0 <= w < cur.len() && !is_vin(cur[w].name);
                        assert(w < i ==> (0 <= w < pre.len() && !is_vin(pre[w].name)));
                        assert(false);
                    }
                };
            }
            i = i + 1;
        }
        proof {
            assert(self@.power_rails.take(n as int) =~= self@.power_rails);
        }
        let total: u128 = if has_non_vin {
            sum_non_vin
        } else {
            sum_all
        };
        if total > u64::MAX as u128 {
            Some(u64::MAX)
        } else {
            Some(total as u64)
        }
    }
}

/// One history series after appending `v` with first-in-first-out
/// eviction at capacity `cap`; a capacity of zero keeps every series empty.
pub open spec fn push_value_spec(s: Seq<u64>, cap: int, v: u64) -> Seq<u64> {
    if cap <= 0 {
        s
    } else if s.len() < cap {
        s.push(v)
    } else {
        s.subrange(1, s.len() as int).push(v)
    }
}

/// A utilization in thousandths of a percent, rounded to the nearest
/// whole percent and clamped to 100.
pub open spec fn round_percent(m: u32) -> u64 {
    if (m + 500) / 1000 > 100 {
        100
    } else {
        ((m + 500) / 1000) as u64
    }
}

/// The value a sample contributes to the mean-core-utilization
/// series, if any: the rounded, clamped whole percent.
pub open spec fn cpu_series_value(m: SnapshotModel) -> Option<u64> {
    match cpu_total_spec(m) {
        Some(t) => Some(round_percent(t)),
        None => None,
    }
}

/// The value a sample contributes to the GPU series, if any.
pub open spec fn gpu_series_value(m: SnapshotModel) -> Option<u64> {
    match m.gpu_util {
        Some(g) => Some(round_percent(g)),
        None => None,
    }
}

/// A series after an optional append: an absent value leaves it as is.
pub open spec fn series_after(s: Seq<u64>, cap: int, v: Option<u64>) -> Seq<u64> {
    match v {
        Some(x) => push_value_spec(s, cap, x),
        None => s,
    }
}

/// Bounded rolling buffers of derived scalar series. Each series grows
/// only when the corresponding metric is present in the pushed sample,
/// so lengths may diverge; none ever exceeds the capacity.
#[derive(Debug)]
pub struct History {
    /// Fixed bound on the length of each series.
    pub capacity: usize,
    /// Mean core utilization, whole percent.
    pub cpu_total: VecDeque<u64>,
    /// RAM used, megabytes.
    pub ram_used: VecDeque<u64>,
    /// GPU utilization, whole percent.
    pub gpu_util: VecDeque<u64>,
    /// Total power, milliwatts.
    pub power_total: VecDeque<u64>,
}

impl History {
    /// The fixed capacity this history was created with.
    pub open spec fn cap(&self) -> usize {
        self.capacity
    }

    /// Every series is within capacity.
    pub open spec fn wf(&self) -> bool {
        &&& self.cpu_total@.len() <= self.cap()
        &&& self.ram_used@.len() <= self.cap()
        &&& self.gpu_util@.len() <= self.cap()
        &&& self.power_total@.len() <= self.cap()
    }

    /// An empty history with the given fixed capacity.
    pub fn new(capacity: usize) -> (r: Self)
        ensures
            r.cap() == capacity,
            r.cpu_total@ == Seq::<u64>::empty(),
            r.ram_used@ == Seq::<u64>::empty(),
            r.gpu_util@ == Seq::<u64>::empty(),
            r.power_total@ == Seq::<u64>::empty(),
            r.wf(),
    {
        History {
            capacity,
            cpu_total: VecDeque::with_capacity(capacity),
            ram_used: VecDeque::with_capacity(capacity),
            gpu_util: VecDeque::with_capacity(capacity),
            power_total: VecDeque::with_capacity(capacity),
        }
    }

    /// Clear all four series; the capacity is kept.
    pub fn reset(&mut self)
        ensures
            final(self).cap() == old(self).cap(),
            final(self).cpu_total@ == Seq::<u64>::empty(),
            final(self).ram_used@ == Seq::<u64>::empty(),
            final(self).gpu_util@ == Seq::<u64>::empty(),
            final(self).power_total@ == Seq::<u64>::empty(),
            final(self).wf(),
    {
        self.cpu_total.clear();
        self.ram_used.clear();
        self.gpu_util.clear();
        self.power_total.clear();
    }

    /// Fold a sample into the series: each derived value that is present
    /// is appended to its series with eviction of the oldest at capacity;
    /// an absent value leaves its series untouched.
    pub fn push(&mut self, snapshot: &StatsSnapshot)
        ensures
            final(self).cap() == old(self).cap(),
            final(self).cpu_total@ == series_after(
                old(self).cpu_total@,
                old(self).cap() as int,
                cpu_series_value(snapshot@),
            ),
            final(self).ram_used@ == series_after(
                old(self).ram_used@,
                old(self).cap() as int,
                snapshot.ram_used_mb,
            ),
            final(self).gpu_util@ == series_after(
                old(self).gpu_util@,
                old(self).cap() as int,
                gpu_series_value(snapshot@),
            ),
            final(self).power_total@ == series_after(
                old(self).power_total@,
                old(self).cap() as int,
                total_power_spec(snapshot@),
            ),
            old(self).wf() ==> final(self).wf(),
    {
        let capacity = self.capacity;
        if let Some(cpu_total) = snapshot.cpu_total() {
            let rounded = if (cpu_total as u64 + 500) / 1000 > 100 {
                100u64
            } else {
                (cpu_total as u64 + 500) / 1000
            };
            Self::push_value(&mut self.cpu_total, capacity, rounded);
        }
        if let Some(used) = snapshot.ram_used_mb {
            Self::push_value(&mut self.ram_used, capacity, used);
        }
        if let Some(gpu_util) = snapshot.gpu_util {
            let rounded = if (gpu_util as u64 + 500) / 1000 > 100 {
                100u64
            } else {
                (gpu_util as u64 + 500) / 1000
            };
            Self::push_value(&mut self.gpu_util, capacity, rounded);
        }
        if let Some(power_total) = snapshot.total_power_mw() {
            Self::push_value(&mut self.power_total, capacity, power_total);
        }
    }

    fn push_value(deque: &mut VecDeque<u64>, capacity: usize, value: u64)
        ensures
            final(deque)@ == push_value_spec(old(deque)@, capacity as int, value),
    {
        if capacity == 0 {
            return ;
        }
        if deque.len() >= capacity {
            deque.pop_front();
        }
        deque.push_back(value);
    }
}

/// Renderer-facing state: the last merged sample, the rolling history,
/// the current sampling interval, and the last error message.
#[derive(Debug)]
pub struct AppState {
    pub latest: Option<StatsSnapshot>,
    pub history: History,
    pub interval_ms: u64,
    pub show_help: bool,
    pub error: Option<String>,
    pub buttons: UiButtons,
    pub hover: HoverTarget,
}

impl AppState {
    /// Fresh state: no sample yet, empty history of the given capacity,
    /// no error, default UI state.
    pub fn new(interval_ms: u64, history_capacity: usize) -> (r: Self)
        ensures
            r.latest is None,
            r.history.cap() == history_capacity,
            r.history.cpu_total@ == Seq::<u64>::empty(),
            r.history.ram_used@ == Seq::<u64>::empty(),
            r.history.gpu_util@ == Seq::<u64>::empty(),
            r.history.power_total@ == Seq::<u64>::empty(),
            r.interval_ms == interval_ms,
            !r.show_help,
            r.error is None,
            r.buttons.minus is None,
            r.buttons.plus is None,
            r.hover == HoverTarget::Idle,
    {
        AppState {
            latest: None,
            history: History::new(history_capacity),
            interval_ms,
            show_help: false,
            error: None,
            buttons: UiButtons { minus: None, plus: None },
            hover: HoverTarget::Idle,
        }
    }
}

/// A clickable region of the rendered header, one terminal row tall.
#[derive(Clone, Copy, Debug)]
pub struct UiButton {
    pub x: u16,
    pub y: u16,
    pub width: u16,
}

impl UiButton {
    /// True when the cell at (`column`, `row`) lies inside the button.
    pub fn contains(&self, column: u16, row: u16) -> (r: bool)
        ensures
            r == (row == self.y && self.x <= column
                && (column as int) < self.x as int + self.width as int
                && column < u16::MAX),
    {
        row == self.y && column >= self.x && column < self.x.saturating_add(self.width)
    }
}

impl Default for UiButton {
    /// A zero-sized button at the origin.
    fn default() -> (r: Self)
        ensures
            r.x == 0 && r.y == 0 && r.width == 0,
    {
        UiButton { x: 0, y: 0, width: 0 }
    }
}

/// The clickable interval controls of the header, when rendered.
#[derive(Clone, Debug)]
pub struct UiButtons {
    pub minus: Option<UiButton>,
    pub plus: Option<UiButton>,
}

impl Default for UiButtons {
    /// No buttons rendered yet.
    fn default() -> (r: Self)
        ensures
            r.minus is None,
            r.plus is None,
    {
        UiButtons { minus: None, plus: None }
    }
}

/// Which interval control the mouse cursor rests on, if any.
#[derive(Clone, Copy, Debug, PartialEq, Eq, Structural)]
pub enum HoverTarget {
    Idle,
    Minus,
    Plus,
}

impl Default for HoverTarget {
    /// The cursor rests on no control.
    fn default() -> (r: Self)
        ensures
            r == HoverTarget::Idle,
    {
        HoverTarget::Idle
    }
}

} // verus!
