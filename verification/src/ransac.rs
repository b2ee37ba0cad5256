//! Random sample consensus: which of the segments along a line is the
//! largest.

use vstd::prelude::*;

verus! {

/// The finder of line segments.
pub struct Ransac;

/// The places of the list never go down.
pub open spec fn ascending(gaps: Seq<usize>) -> bool {
    forall|i: int, j: int| 0 <= i <= j < gaps.len() ==> gaps[i] <= gaps[j]
}

/// The number of points between place `i` of the list and the next.
pub open spec fn span(gaps: Seq<usize>, i: int) -> int {
    gaps[i + 1] - gaps[i]
}

/// The segment that begins at place `i` holds a point, no segment holds more,
/// and none before it holds as many.
pub open spec fn is_largest(gaps: Seq<usize>, i: int) -> bool {
    &&& 0 <= i < gaps.len() - 1
    &&& span(gaps, i) > 0
    &&& forall|j: int| 0 <= j < gaps.len() - 1 ==> #[trigger] span(gaps, j) <= span(gaps, i)
    &&& forall|j: int| 0 <= j < i ==> #[trigger] span(gaps, j) < span(gaps, i)
}

impl Ransac {
    /// The largest segment among those that the places of `gaps` part: where it
    /// begins and where it ends, the first of the largest where several are as
    /// large; `(0, 0)` where no segment holds a point.
    pub fn largest_segment(gaps: &Vec<usize>) -> (segment: (usize, usize))
        requires
            ascending(gaps@),
        ensures
            (exists|i: int| is_largest(gaps@, i)) ==> exists|i: int|
                is_largest(gaps@, i) && segment == (gaps[i], gaps[i + 1]),
            !(exists|i: int| is_largest(gaps@, i)) ==> segment == (0usize, 0usize),
    {
        let mut max_seg: (usize, usize) = (0, 0);
        let mut max_size: usize = 0;
        let ghost mut best: int = -1;
        let mut i: usize = 0;
        if gaps.len() == 0 {
            return max_seg;
        }
        while i < gaps.len() - 1
            invariant
                i < gaps.len(),
                ascending(gaps@),
                -1 <= best < i,
                best == -1 ==> max_size == 0 && max_seg == (0usize, 0usize),
                best >= 0 ==> max_size == span(gaps@, best) && max_size > 0 && max_seg == (
                    gaps[best],
                    gaps[best + 1],
                ),
                forall|j: int| 0 <= j < i && j < gaps.len() - 1 ==> #[trigger] span(gaps@, j) <= max_size,
                forall|j: int| 0 <= j < best ==> #[trigger] span(gaps@, j) < max_size,
            decreases gaps.len() - i,
        {
            if gaps[i + 1] - gaps[i] > max_size {
                max_seg = (gaps[i], gaps[i + 1]);
                max_size = gaps[i + 1] - gaps[i];
                proof {
                    best = i as int;
                }
            }
            i += 1;
        }
        proof {
            if best >= 0 {
                assert(is_largest(gaps@, best));
            } else {
                if exists|k: int| is_largest(gaps@, k) {
                    let k = choose|k: int| is_largest(gaps@, k);
                    assert(span(gaps@, k) <= max_size);
                }
            }
        }
        max_seg
    }
}

} // verus!
