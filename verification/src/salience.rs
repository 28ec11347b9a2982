//! Peak picking on the pitch-salience map.

use vstd::prelude::*;

verus! {

/// Bin `k` is a summit of the map: at least as high as the two bins below
/// it and higher than the two bins above it.
pub open spec fn is_summit(sal: Seq<u32>, k: int) -> bool {
    &&& sal[k] >= sal[k - 1]
    &&& sal[k] > sal[k + 1]
    &&& sal[k] >= sal[k - 2]
    &&& sal[k] > sal[k + 2]
}

/// Bin `k` may be picked: away from both ends, above `floor`, a summit.
pub open spec fn qualifies(sal: Seq<u32>, floor: u32, k: int) -> bool {
    2 <= k < sal.len() - 2 && sal[k] > floor && is_summit(sal, k)
}

/// Bin `k` is the highest qualifying bin, and the first of that height.
pub open spec fn is_best_peak(sal: Seq<u32>, floor: u32, k: int) -> bool {
    &&& qualifies(sal, floor, k)
    &&& forall|q: int| #[trigger] qualifies(sal, floor, q) ==> sal[q] <= sal[k]
    &&& forall|q: int| 0 <= q < k && #[trigger] qualifies(sal, floor, q) ==> sal[q] < sal[k]
}

/// The highest summit of the salience keys `sal` above `floor` (the first
/// of equal height), or `None` when no bin qualifies.
pub fn best_peak(sal: &Vec<u32>, floor: u32) -> (r: Option<usize>)
    requires
        sal.len() >= 2,
    ensures
        r is None <==> forall|q: int| !#[trigger] qualifies(sal@, floor, q),
        r matches Some(k) ==> is_best_peak(sal@, floor, k as int),
{
    let n = sal.len();
    let mut best: Option<usize> = None;
    let mut bv = floor;
    let mut k: usize = 2;
    while k < n - 2
        invariant
            n == sal.len(),
            n >= 2,
            2 <= k <= n,
            best is None ==> bv == floor && forall|q: int| q < k && #[trigger] qualifies(sal@, floor, q) ==> false,
            best matches Some(b) ==> {
                &&& b < k
                &&& bv == sal@[b as int]
                &&& qualifies(sal@, floor, b as int)
                &&& forall|q: int| q < k && #[trigger] qualifies(sal@, floor, q) ==> sal@[q] <= bv
                &&& forall|q: int| q < b && #[trigger] qualifies(sal@, floor, q) ==> sal@[q] < bv
            },
        decreases n - k,
    {
        let s = sal[k];
        if s > bv && s >= sal[k - 1] && s > sal[k + 1] && s >= sal[k - 2] && s > sal[k + 2] {
            bv = s;
            best = Some(k);
        }
        k += 1;
    }
    proof {
        assert forall|q: int| #[trigger] qualifies(sal@, floor, q) implies q < k by {}
    }
    best
}

} // verus!
