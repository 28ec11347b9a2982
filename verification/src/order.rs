//! Orderings over integer keys.
//!
//! Every real-valued quantity that the tuner compares (magnitudes,
//! frequencies, saliences, distances in cents) reaches this library as a
//! `u32` key whose unsigned order is the total order of the value it stands
//! for, so that sorting, picking maxima and nearest neighbours are decided
//! here on plain integers.

use vstd::prelude::*;

verus! {

/// Whether a key `a` must be placed strictly before a key `b`, ignoring
/// positions: smaller first, or larger first when `descending`.
pub open spec fn strictly_first(a: u32, b: u32, descending: bool) -> bool {
    if descending {
        a > b
    } else {
        a < b
    }
}

/// Index `a` precedes index `b` in the stable order of `keys`: by key, and
/// among equal keys by position (what a stable sort of the positions in
/// increasing order produces).
pub open spec fn precedes(keys: Seq<u32>, descending: bool, a: int, b: int) -> bool {
    if keys[a] == keys[b] {
        a < b
    } else {
        strictly_first(keys[a], keys[b], descending)
    }
}

/// `r` lists every position of `keys` exactly once, in stable key order.
pub open spec fn is_stable_order(keys: Seq<u32>, descending: bool, r: Seq<usize>) -> bool {
    &&& r.len() == keys.len()
    &&& forall|k: int| 0 <= k < r.len() ==> #[trigger] r[k] < keys.len()
    &&& forall|k: usize| k < keys.len() ==> #[trigger] r.contains(k)
    &&& forall|i: int, j: int|
        0 <= i < j < r.len() ==> precedes(keys, descending, #[trigger] r[i] as int, #[trigger] r[j] as int)
}

fn key_strictly_first(a: u32, b: u32, descending: bool) -> (res: bool)
    ensures
        res == strictly_first(a, b, descending),
{
    if descending {
        a > b
    } else {
        a < b
    }
}

/// The positions of `keys` in stable sorted order (ascending, or descending
/// when `descending`); equal keys keep their relative order.
pub fn stable_order(keys: &Vec<u32>, descending: bool) -> (r: Vec<usize>)
    ensures
        is_stable_order(keys@, descending, r@),
{
    let n = keys.len();
    let mut r: Vec<usize> = Vec::new();
    let mut i: usize = 0;
    while i < n
        invariant
            n == keys.len(),
            i <= n,
            r.len() == i,
            forall|k: int| 0 <= k < r.len() ==> #[trigger] r[k] < i,
            forall|k: usize| k < i ==> #[trigger] r@.contains(k),
            forall|a: int, b: int|
                0 <= a < b < r.len() ==> precedes(keys@, descending, #[trigger] r[a] as int, #[trigger] r[b] as int),
        decreases n - i,
    {
        let ki = keys[i];
        let mut p: usize = 0;
        while p < r.len() && !key_strictly_first(ki, keys[r[p]], descending)
            invariant
                n == keys.len(),
                i < n,
                r.len() == i,
                p <= r.len(),
                forall|k: int| 0 <= k < r.len() ==> #[trigger] r[k] < i,
                forall|k: int| 0 <= k < p ==> !strictly_first(ki, keys[#[trigger] r[k] as int], descending),
            decreases r.len() - p,
        {
            p += 1;
        }
        let ghost old_r = r@;
        proof {
            if p < old_r.len() {
                assert forall|k: int| p <= k < old_r.len() implies strictly_first(ki, keys[#[trigger] old_r[k] as int], descending) by {
                    if k > p {
                        assert(precedes(keys@, descending, old_r[p as int] as int, old_r[k] as int));
                    }
                }
            }
        }
        r.insert(p, i);
        proof {
            old_r.insert_ensures(p as int, i);
            assert forall|k: usize| k < i + 1 implies #[trigger] r@.contains(k) by {
                if k == i {
                    assert(r@[p as int] == i);
                } else {
                    assert(old_r.contains(k));
                    let idx = choose|idx: int| 0 <= idx < old_r.len() && old_r[idx] == k;
                    if idx < p {
                        assert(r@[idx] == k);
                    } else {
                        assert(r@[idx + 1] == k);
                    }
                }
            }
            assert forall|k: int| 0 <= k < r.len() implies #[trigger] r[k] < i + 1 by {
                if k < p {
                    assert(r[k] == old_r[k]);
                } else if k > p {
                    assert(r[k] == old_r[k - 1]);
                }
            }
            assert forall|a: int, b: int| 0 <= a < b < r.len() implies precedes(keys@, descending, #[trigger] r[a] as int, #[trigger] r[b] as int) by {
                if b < p {
                    assert(r[a] == old_r[a] && r[b] == old_r[b]);
                } else if b == p {
                    assert(r[a] == old_r[a]);
                    assert(!strictly_first(ki, keys[old_r[a] as int], descending));
                } else if a < p {
                    assert(r[a] == old_r[a] && r[b] == old_r[b - 1]);
                } else if a == p {
                    assert(r[b] == old_r[b - 1]);
                    assert(strictly_first(ki, keys[old_r[b - 1] as int], descending));
                } else {
                    assert(r[a] == old_r[a - 1] && r[b] == old_r[b - 1]);
                }
            }
        }
        i += 1;
    }
    r
}

/// Position `j` holds the smallest key below `bound` among the available
/// positions, and no earlier available position holds the same key.
pub open spec fn is_first_nearest(keys: Seq<u32>, avail: Seq<bool>, bound: u32, j: int) -> bool {
    &&& 0 <= j < keys.len()
    &&& avail[j]
    &&& keys[j] < bound
    &&& forall|i: int| 0 <= i < keys.len() && #[trigger] avail[i] ==> keys[j] <= keys[i]
    &&& forall|i: int| 0 <= i < j && #[trigger] avail[i] ==> keys[j] < keys[i]
}

/// Whether some available position holds a key below `bound`.
pub open spec fn any_below(keys: Seq<u32>, avail: Seq<bool>, bound: u32) -> bool {
    exists|i: int| 0 <= i < keys.len() && #[trigger] avail[i] && keys[i] < bound
}

/// The first available position with the smallest key below `bound`, if any.
pub open spec fn first_nearest(keys: Seq<u32>, avail: Seq<bool>, bound: u32) -> Option<int> {
    if exists|j: int| is_first_nearest(keys, avail, bound, j) {
        Some(choose|j: int| is_first_nearest(keys, avail, bound, j))
    } else {
        None
    }
}

/// At most one position is the first nearest one.
pub proof fn lemma_first_nearest_unique(keys: Seq<u32>, avail: Seq<bool>, bound: u32, a: int, b: int)
    requires
        is_first_nearest(keys, avail, bound, a),
        is_first_nearest(keys, avail, bound, b),
    ensures
        a == b,
{
    if a < b {
        assert(avail[a]);
    } else if b < a {
        assert(avail[b]);
    }
}

/// Among the first `m` positions, `j` is the first nearest one.
pub open spec fn is_first_nearest_upto(keys: Seq<u32>, avail: Seq<bool>, bound: u32, m: int, j: int) -> bool {
    &&& 0 <= j < m
    &&& avail[j]
    &&& keys[j] < bound
    &&& forall|i: int| 0 <= i < m && #[trigger] avail[i] ==> keys[j] <= keys[i]
    &&& forall|i: int| 0 <= i < j && #[trigger] avail[i] ==> keys[j] < keys[i]
}

proof fn lemma_prefix_nearest(keys: Seq<u32>, avail: Seq<bool>, bound: u32, m: int)
    requires
        keys.len() == avail.len(),
        0 <= m <= keys.len(),
    ensures
        (exists|i: int| 0 <= i < m && #[trigger] avail[i] && keys[i] < bound)
            ==> exists|j: int| is_first_nearest_upto(keys, avail, bound, m, j),
    decreases m,
{
    if m > 0 {
        lemma_prefix_nearest(keys, avail, bound, m - 1);
        let l = m - 1;
        if exists|i: int| 0 <= i < m && #[trigger] avail[i] && keys[i] < bound {
            if exists|j: int| is_first_nearest_upto(keys, avail, bound, l, j) {
                let j = choose|j: int| is_first_nearest_upto(keys, avail, bound, l, j);
                if avail[l] && keys[l] < keys[j] {
                    assert(is_first_nearest_upto(keys, avail, bound, m, l));
                } else {
                    assert(is_first_nearest_upto(keys, avail, bound, m, j));
                }
            } else {
                assert forall|i: int| 0 <= i < l && #[trigger] avail[i] implies keys[i] >= bound by {
                    if keys[i] < bound {
                        assert(0 <= i < l && avail[i] && keys[i] < bound);
                    }
                }
                assert(is_first_nearest_upto(keys, avail, bound, m, l));
            }
        }
    }
}

/// When some available key lies below the bound, a first nearest position
/// exists.
pub proof fn lemma_first_nearest_exists(keys: Seq<u32>, avail: Seq<bool>, bound: u32)
    requires
        keys.len() == avail.len(),
    ensures
        any_below(keys, avail, bound) ==> first_nearest(keys, avail, bound) is Some,
        first_nearest(keys, avail, bound) matches Some(j) ==> is_first_nearest(keys, avail, bound, j),
{
    lemma_prefix_nearest(keys, avail, bound, keys.len() as int);
    if any_below(keys, avail, bound) {
        let j = choose|j: int| is_first_nearest_upto(keys, avail, bound, keys.len() as int, j);
        assert(is_first_nearest(keys, avail, bound, j));
    }
}

/// The first available position with the smallest key below `bound`, or
/// `None` when no available key lies below it. Ties go to the earlier
/// position.
pub fn nearest_below(keys: &Vec<u32>, avail: &Vec<bool>, bound: u32) -> (r: Option<usize>)
    requires
        keys.len() == avail.len(),
    ensures
        r is None <==> !any_below(keys@, avail@, bound),
        r is None <==> first_nearest(keys@, avail@, bound) is None,
        r matches Some(j) ==> first_nearest(keys@, avail@, bound) == Some(j as int)
            && is_first_nearest(keys@, avail@, bound, j as int),
{
    let n = keys.len();
    let mut best: Option<usize> = None;
    let mut i: usize = 0;
    while i < n
        invariant
            n == keys.len(),
            n == avail.len(),
            i <= n,
            best is None ==> forall|k: int| 0 <= k < i && #[trigger] avail@[k] ==> keys@[k] >= bound,
            best matches Some(j) ==> {
                &&& j < i
                &&& avail@[j as int]
                &&& keys@[j as int] < bound
                &&& forall|k: int| 0 <= k < i && #[trigger] avail@[k] ==> keys@[j as int] <= keys@[k]
                &&& forall|k: int| 0 <= k < j && #[trigger] avail@[k] ==> keys@[j as int] < keys@[k]
            },
        decreases n - i,
    {
        if avail[i] && keys[i] < bound {
            match best {
                None => {
                    best = Some(i);
                },
                Some(j) => {
                    if keys[i] < keys[j] {
                        best = Some(i);
                    }
                },
            }
        }
        i += 1;
    }
    proof {
        match best {
            Some(j) => {
                assert(is_first_nearest(keys@, avail@, bound, j as int));
                let c = choose|c: int| is_first_nearest(keys@, avail@, bound, c);
                lemma_first_nearest_unique(keys@, avail@, bound, c, j as int);
            },
            None => {
                assert forall|c: int| !is_first_nearest(keys@, avail@, bound, c) by {
                    if 0 <= c < keys.len() && avail@[c] {
                    }
                }
            },
        }
    }
    best
}

/// The number of leading keys below `target` in a non-decreasing sequence,
/// found by bisection: every key before it is below `target`, every key
/// from it on is not.
pub fn lower_bound(keys: &Vec<u32>, target: u32) -> (r: usize)
    requires
        forall|a: int, b: int| 0 <= a <= b < keys.len() ==> #[trigger] keys@[a] <= #[trigger] keys@[b],
    ensures
        r <= keys.len(),
        forall|k: int| 0 <= k < r ==> #[trigger] keys@[k] < target,
        forall|k: int| r <= k < keys.len() ==> #[trigger] keys@[k] >= target,
{
    let mut lo: usize = 0;
    let mut hi: usize = keys.len();
    while lo < hi
        invariant
            lo <= hi <= keys.len(),
            forall|a: int, b: int| 0 <= a <= b < keys.len() ==> #[trigger] keys@[a] <= #[trigger] keys@[b],
            forall|k: int| 0 <= k < lo ==> #[trigger] keys@[k] < target,
            forall|k: int| hi <= k < keys.len() ==> #[trigger] keys@[k] >= target,
        decreases hi - lo,
    {
        let mid = lo + (hi - lo) / 2;
        if keys[mid] < target {
            proof {
                assert forall|k: int| 0 <= k < mid + 1 implies #[trigger] keys@[k] < target by {
                    if k < mid {
                        assert(keys@[k] <= keys@[mid as int]);
                    }
                }
            }
            lo = mid + 1;
        } else {
            proof {
                assert forall|k: int| mid <= k < keys.len() implies #[trigger] keys@[k] >= target by {
                    if k > mid {
                        assert(keys@[mid as int] <= keys@[k]);
                    }
                }
            }
            hi = mid;
        }
    }
    lo
}

/// The largest of `floor` and all the keys.
pub fn max_key(keys: &Vec<u32>, floor: u32) -> (r: u32)
    ensures
        r >= floor,
        forall|k: int| 0 <= k < keys.len() ==> r >= #[trigger] keys@[k],
        r == floor || exists|k: int| 0 <= k < keys.len() && r == #[trigger] keys@[k],
{
    let mut m = floor;
    let mut i: usize = 0;
    while i < keys.len()
        invariant
            i <= keys.len(),
            m >= floor,
            forall|k: int| 0 <= k < i ==> m >= #[trigger] keys@[k],
            m == floor || exists|k: int| 0 <= k < i && m == #[trigger] keys@[k],
        decreases keys.len() - i,
    {
        if keys[i] > m {
            m = keys[i];
        }
        i += 1;
    }
    m
}

} // verus!
