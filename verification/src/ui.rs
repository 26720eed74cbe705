//! Renderer-facing helpers: shaping of a history series for a
//! fixed-width sparkline.

use std::collections::VecDeque;
use vstd::prelude::*;

verus! {

/// A series fitted to a drawing width: the most recent values, right
/// aligned, padded on the left with zeros; empty when the width is
/// zero, all zeros when the series is empty.
pub open spec fn sparkline_spec(data: Seq<u64>, width: int) -> Seq<u64> {
    if width == 0 {
        Seq::empty()
    } else if data.len() == 0 {
        Seq::new(width as nat, |i: int| 0u64)
    } else {
        let available = if data.len() < width {
            data.len() as int
        } else {
            width
        };
        let start = data.len() - available;
        let lead = width - available;
        Seq::new(
            width as nat,
            |i: int|
                if i < lead {
                    0u64
                } else {
                    data[start + (i - lead)]
                },
        )
    }
}

/// Fit a history series to a drawing width.
pub fn sparkline_data(data: &VecDeque<u64>, width: u16) -> (r: Vec<u64>)
    ensures
        r@ == sparkline_spec(data@, width as int),
{
    let w = width as usize;
    let mut out: Vec<u64> = Vec::new();
    if w == 0 {
        proof {
            assert(out@ =~= sparkline_spec(data@, width as int));
        }
        return out;
    }
    let n = data.len();
    if n == 0 {
        let mut i: usize = 0;
        while i < w
            invariant
                0 <= i <= w,
                out@.len() == i,
                forall|j: int| 0 <= j < i ==> out@[j] == 0u64,
            decreases w - i,
        {
            out.push(0);
            i = i + 1;
        }
        proof {
            assert(out@ =~= sparkline_spec(data@, width as int));
        }
        return out;
    }
    let available = if n < w {
        n
    } else {
        w
    };
    let start = n - available;
    let lead = w - available;
    let mut i: usize = 0;
    while i < lead
        invariant
            0 <= i <= lead,
            out@.len() == i,
            forall|j: int| 0 <= j < i ==> out@[j] == 0u64,
        decreases lead - i,
    {
        out.push(0);
        i = i + 1;
    }
    let mut k: usize = 0;
    while k < available
        invariant
            0 <= k <= available,
            available <= n == data@.len(),
            start == n - available,
            lead + available == w,
            out@.len() == lead + k,
            forall|j: int| 0 <= j < lead ==> out@[j] == 0u64,
            forall|j: int| 0 <= j < k ==> #[trigger] out@[lead + j] == data@[start + j],
        decreases available - k,
    {
        let v = data[start + k];
        out.push(v);
        k = k + 1;
    }
    proof {
        let expected = sparkline_spec(data@, width as int);
        assert forall|i: int| 0 <= i < w implies out@[i] == expected[i] by {
            if i >= lead {
                assert(out@[lead + (i - lead)] == data@[start + (i - lead)]);
            }
        }
        assert(out@ =~= expected);
    }
    out
}

} // verus!
