//! The shared search helper: an exponential probe from the current offset
//! followed by a binary search inside the window it found. Every galloping
//! source uses this one function, so all of them advance identically.

use vstd::prelude::*;
use crate::stream_defs::key_passed;

verus! {

/// A sorted run of keys, possibly with repeats.
pub open spec fn sorted_slice(s: Seq<usize>) -> bool {
    forall|i: int, j: int| 0 <= i < j < s.len() ==> #[trigger] s[i] <= #[trigger] s[j]
}

/// Compare with a strictness parameter: whether `x` lies behind a request to
/// advance to `y` (strictly past `y` when `allow_eq`).
#[inline]
pub(crate) fn lt_or_possibly_eq(x: usize, y: usize, allow_eq: bool) -> (r: bool)
    ensures
        r == key_passed(x, y, allow_eq),
{
    x < y || (allow_eq && x == y)
}

/// The number of leading elements of `arr` that a request to advance to
/// `(target, strict)` passes: the offset of the first element `>= target`
/// (`> target` when strict).
pub(crate) fn binary_search(arr: &[usize], target: usize, strict: bool) -> (r: usize)
    requires
        sorted_slice(arr@),
    ensures
        r <= arr@.len(),
        forall|j: int| 0 <= j < r ==> key_passed(#[trigger] arr@[j], target, strict),
        forall|j: int| r <= j < arr@.len() ==> !key_passed(#[trigger] arr@[j], target, strict),
{
    let n = arr.len();
    let mut lo: usize = 0;
    let mut hi: usize = n;
    let mut probe: usize = 0;
    let mut step: usize = 1;
    // Exponential probe: double the stride until the first overshoot.
    while probe < hi && lt_or_possibly_eq(*vstd::slice::slice_index_get(arr, probe), target, strict)
        invariant
            sorted_slice(arr@),
            n == arr@.len(),
            lo <= hi <= n,
            probe <= hi,
            step >= 1,
            forall|j: int| 0 <= j < lo ==> key_passed(#[trigger] arr@[j], target, strict),
            forall|j: int| hi <= j < n ==> !key_passed(#[trigger] arr@[j], target, strict),
        decreases hi - probe,
    {
        proof {
            // everything up to the probed position is passed as well
            assert(forall|j: int| 0 <= j <= probe ==> #[trigger] arr@[j] <= arr@[probe as int]);
        }
        lo = probe + 1;
        probe = if step <= hi - probe { probe + step } else { hi };
        step = if step <= usize::MAX / 2 { step * 2 } else { step };
    }
    proof {
        if probe < hi {
            // the probed element is not passed, so nothing at or beyond it is
            assert(forall|j: int|
                probe <= j < n ==> arr@[probe as int] <= #[trigger] arr@[j]);
        }
    }
    if probe < hi {
        hi = probe;
    }
    // Standard binary search within the window.
    while lo < hi
        invariant
            sorted_slice(arr@),
            n == arr@.len(),
            lo <= hi <= n,
            forall|j: int| 0 <= j < lo ==> key_passed(#[trigger] arr@[j], target, strict),
            forall|j: int| hi <= j < n ==> !key_passed(#[trigger] arr@[j], target, strict),
        decreases hi - lo,
    {
        let mid = lo + (hi - lo) / 2;
        if lt_or_possibly_eq(*vstd::slice::slice_index_get(arr, mid), target, strict) {
            proof {
                assert(forall|j: int| 0 <= j <= mid ==> #[trigger] arr@[j] <= arr@[mid as int]);
            }
            lo = mid + 1;
        } else {
            proof {
                assert(forall|j: int| mid <= j < n ==> arr@[mid as int] <= #[trigger] arr@[j]);
            }
            hi = mid;
        }
    }
    lo
}

} // verus!
