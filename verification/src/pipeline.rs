//! The coordinator: per-tick merging of the two telemetry streams
//! into the renderer-facing state, and the interval-change protocol.
//!
//! The surrounding program drains each source's channel without
//! blocking and hands the pending values here in publication order;
//! it likewise performs the actual process restarts and reports their
//! outcome to `apply_restart_success` / `apply_restart_failure`.

use vstd::prelude::*;

use crate::model::{
    cpu_series_value, gpu_series_value, series_after, total_power_spec, AppState, SnapshotModel,
    StatsSnapshot,
};

verus! {

/// Lowest accepted sampling interval, milliseconds.
pub const MIN_INTERVAL_MS: u64 = 250;

/// Highest accepted sampling interval, milliseconds.
pub const MAX_INTERVAL_MS: u64 = 5000;

/// `ms` clamped into the accepted interval range.
pub open spec fn clamped_interval(ms: u64) -> u64 {
    if ms < MIN_INTERVAL_MS {
        MIN_INTERVAL_MS
    } else if ms > MAX_INTERVAL_MS {
        MAX_INTERVAL_MS
    } else {
        ms
    }
}

/// The interval that a delta request yields: the magnitude is applied
/// with saturation at the ends of `u64`, and the result is clamped
/// into the accepted range.
pub open spec fn next_interval_spec(current: u64, delta: i64) -> u64 {
    if delta >= 0 {
        let moved = current + delta;
        clamped_interval(
            if moved > u64::MAX {
                u64::MAX
            } else {
                moved as u64
            },
        )
    } else {
        let m = -(delta as int);
        clamped_interval(
            if current >= m {
                (current - m) as u64
            } else {
                0u64
            },
        )
    }
}

/// Clamp a requested absolute interval into the accepted range.
pub fn clamp_interval(ms: u64) -> (r: u64)
    ensures
        r == clamped_interval(ms),
{
    if ms < MIN_INTERVAL_MS {
        MIN_INTERVAL_MS
    } else if ms > MAX_INTERVAL_MS {
        MAX_INTERVAL_MS
    } else {
        ms
    }
}

/// The interval that a delta request yields.
pub fn next_interval(current: u64, delta: i64) -> (r: u64)
    ensures
        r == next_interval_spec(current, delta),
{
    let moved: u64 = if delta >= 0 {
        let d = delta as u64;
        if current > u64::MAX - d {
            u64::MAX
        } else {
            current + d
        }
    } else {
        let m: u64 = if delta == i64::MIN {
            (i64::MAX as u64) + 1
        } else {
            (-delta) as u64
        };
        if current >= m {
            current - m
        } else {
            0
        }
    };
    clamp_interval(moved)
}

/// An interval-change request attempts a restart exactly when the
/// requested interval differs from the current one.
pub fn restart_needed(current_ms: u64, next_ms: u64) -> (r: bool)
    ensures
        r == (next_ms != current_ms),
{
    next_ms != current_ms
}

/// A sample model with its GPU utilization replaced by the cached
/// secondary reading, present or not.
pub open spec fn overlay_gpu(m: SnapshotModel, gpu: Option<u32>) -> SnapshotModel {
    SnapshotModel { gpu_util: gpu, ..m }
}

/// Fold the pending primary samples into the state. Only the newest
/// pending sample survives; the cached secondary reading overlays its
/// GPU utilization (overwriting one the report itself carried, and
/// clearing it when no secondary reading is known); the merged sample
/// feeds the history and becomes `latest`. With nothing pending the
/// state is unchanged.
pub fn ingest_primary(
    app: &mut AppState,
    drained: Vec<StatsSnapshot>,
    last_gpu_util: Option<u32>,
)
    ensures
        drained@.len() == 0 ==> *final(app) == *old(app),
        drained@.len() > 0 ==> {
            let merged = overlay_gpu(drained@.last()@, last_gpu_util);
            &&& final(app).latest matches Some(snap) && snap@ == merged
            &&& final(app).history.cap() == old(app).history.cap()
            &&& final(app).history.cpu_total@ == series_after(
                old(app).history.cpu_total@,
                old(app).history.cap() as int,
                cpu_series_value(merged),
            )
            &&& final(app).history.ram_used@ == series_after(
                old(app).history.ram_used@,
                old(app).history.cap() as int,
                merged.ram_used_mb,
            )
            &&& final(app).history.gpu_util@ == series_after(
                old(app).history.gpu_util@,
                old(app).history.cap() as int,
                gpu_series_value(merged),
            )
            &&& final(app).history.power_total@ == series_after(
                old(app).history.power_total@,
                old(app).history.cap() as int,
                total_power_spec(merged),
            )
            &&& old(app).history.wf() ==> final(app).history.wf()
            &&& final(app).interval_ms == old(app).interval_ms
            &&& final(app).show_help == old(app).show_help
            &&& final(app).error == old(app).error
            &&& final(app).buttons == old(app).buttons
            &&& final(app).hover == old(app).hover
        },
{
    let mut pending = drained;
    let n = pending.len();
    if n == 0 {
        return ;
    }
    match pending.pop() {
        Some(newest) => {
            let mut merged = newest;
            merged.gpu_util = last_gpu_util;
            proof {
                assert(merged@ =~~= overlay_gpu(drained@.last()@, last_gpu_util));
            }
            app.history.push(&merged);
            app.latest = Some(merged);
        },
        None => {
            proof {
                assert(false);
            }
        },
    }
}

/// Fold the pending secondary readings into the state and return the
/// new cached reading. The newest pending reading wins; when a merged
/// sample already exists its GPU utilization is patched in place. The
/// history is never touched; with nothing pending everything is
/// unchanged and the old cached reading is returned.
pub fn ingest_secondary(
    app: &mut AppState,
    readings: &Vec<u32>,
    last_gpu_util: Option<u32>,
) -> (r: Option<u32>)
    ensures
        readings@.len() == 0 ==> r == last_gpu_util && *final(app) == *old(app),
        readings@.len() > 0 ==> {
            &&& r == Some(readings@.last())
            &&& (old(app).latest matches Some(s) ==> final(app).latest matches Some(p) && p@
                == overlay_gpu(s@, Some(readings@.last())))
            &&& (old(app).latest is None ==> final(app).latest is None)
            &&& final(app).history == old(app).history
            &&& final(app).interval_ms == old(app).interval_ms
            &&& final(app).show_help == old(app).show_help
            &&& final(app).error == old(app).error
            &&& final(app).buttons == old(app).buttons
            &&& final(app).hover == old(app).hover
        },
{
    let n = readings.len();
    if n == 0 {
        return last_gpu_util;
    }
    let v = readings[n - 1];
    match app.latest.take() {
        Some(snap) => {
            let mut patched = snap;
            patched.gpu_util = Some(v);
            proof {
                assert(patched@ =~~= overlay_gpu(old(app).latest->Some_0@, Some(v)));
            }
            app.latest = Some(patched);
        },
        None => {},
    }
    Some(v)
}

/// Adopt a successful restart at the requested interval: the interval
/// is updated and the error message cleared; sample state, history,
/// and UI state are untouched.
pub fn apply_restart_success(app: &mut AppState, next_interval_ms: u64)
    ensures
        final(app).interval_ms == next_interval_ms,
        final(app).error is None,
        final(app).latest == old(app).latest,
        final(app).history == old(app).history,
        final(app).show_help == old(app).show_help,
        final(app).buttons == old(app).buttons,
        final(app).hover == old(app).hover,
{
    app.interval_ms = next_interval_ms;
    app.error = None;
}

/// Record a failed restart: the message becomes the current error
/// while the interval, sample state, history, and UI state keep their
/// values — the running sources are to be left untouched.
pub fn apply_restart_failure(app: &mut AppState, message: String)
    ensures
        final(app).interval_ms == old(app).interval_ms,
        final(app).error matches Some(e) && e@ == message@,
        final(app).latest == old(app).latest,
        final(app).history == old(app).history,
        final(app).show_help == old(app).show_help,
        final(app).buttons == old(app).buttons,
        final(app).hover == old(app).hover,
{
    app.error = Some(message);
}

} // verus!
