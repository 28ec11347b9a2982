//! A bank of pitch tracks: identity, hit and miss counting, activation and
//! death, and the association of each frame's candidates with the tracks.
//!
//! A track's continuous state (its pitch estimate and filter) is carried as
//! an opaque payload `P`; every decision that depends on it reaches this
//! module as integer keys.

use vstd::prelude::*;
use crate::order::{any_below, first_nearest, is_first_nearest, nearest_below, precedes, stable_order, is_stable_order};

verus! {

/// Hits after which a track is shown.
pub const ACTIVATE_HITS: u32 = 4;
/// Consecutive misses a shown track survives.
pub const HOLD_MISSES: u32 = 2;
/// Consecutive misses after which a track is dead.
pub const DEAD_MISSES: u32 = 8;

/// One track: its identity, its hit and miss counts, and its payload.
pub struct Slot<P> {
    pub id: u32,
    pub hits: u32,
    pub misses: u32,
    pub state: P,
}

/// A track is dead once it has missed more than `DEAD_MISSES` frames in a row.
pub open spec fn is_dead<P>(s: Slot<P>) -> bool {
    s.misses > DEAD_MISSES
}

/// A track has been seen often and recently enough to be shown (the
/// library's user adds its own steadiness condition).
pub open spec fn counts_active<P>(s: Slot<P>) -> bool {
    s.hits >= ACTIVATE_HITS && s.misses <= HOLD_MISSES
}

/// A one-frame fluke: seen at most once, then missed.
pub open spec fn is_fluke<P>(s: Slot<P>) -> bool {
    s.hits < 2 && s.misses > 0
}

impl<P> Slot<P> {
    /// Whether the track is dead.
    pub fn dead(&self) -> (r: bool)
        ensures
            r == is_dead(*self),
    {
        self.misses > DEAD_MISSES
    }

    /// Whether the track's counts allow it to be shown.
    pub fn counts_active(&self) -> (r: bool)
        ensures
            r == counts_active(*self),
    {
        self.hits >= ACTIVATE_HITS && self.misses <= HOLD_MISSES
    }
}

/// The tracks, in creation order, and the next identifier to hand out.
pub struct Bank<P> {
    tracks: Vec<Slot<P>>,
    next_id: u32,
}

impl<P> View for Bank<P> {
    type V = Seq<Slot<P>>;

    closed spec fn view(&self) -> Seq<Slot<P>> {
        self.tracks@
    }
}

/// Whether track `s` stays when pruned with expiry flag `expired`:
/// flukes go, and dead tracks go once expired.
pub open spec fn survives<P>(s: Slot<P>, expired: bool) -> bool {
    !is_fluke(s) && !(is_dead(s) && expired)
}

/// The tracks of `tracks` that survive, in order.
pub open spec fn survivors<P>(tracks: Seq<Slot<P>>, expired: Seq<bool>) -> Seq<Slot<P>>
    decreases tracks.len(),
{
    if tracks.len() == 0 {
        Seq::empty()
    } else {
        let rest = survivors(tracks.drop_last(), expired.take(tracks.len() - 1));
        if survives(tracks.last(), expired[tracks.len() - 1]) {
            rest.push(tracks.last())
        } else {
            rest
        }
    }
}

/// Which tracks may take a candidate: unclaimed, alive, with at least
/// `min_hits` hits.
pub open spec fn open_tracks<P>(tracks: Seq<Slot<P>>, claimed: Seq<bool>, min_hits: u32) -> Seq<bool> {
    Seq::new(tracks.len(), |t: int| !claimed[t] && !is_dead(tracks[t]) && tracks[t].hits >= min_hits)
}

/// One greedy association pass: candidates `cands` in turn each take the
/// nearest open track whose distance key is below `bound` (ties to the
/// earlier track). Gives the claimed flags after the pass, the
/// (candidate, track) pairs formed, and the candidates left over.
pub open spec fn greedy_pass<P>(
    tracks: Seq<Slot<P>>,
    dists: Seq<Vec<u32>>,
    cands: Seq<usize>,
    claimed: Seq<bool>,
    min_hits: u32,
    bound: u32,
) -> (Seq<bool>, Seq<(usize, usize)>, Seq<usize>)
    decreases cands.len(),
{
    if cands.len() == 0 {
        (claimed, Seq::empty(), Seq::empty())
    } else {
        let prev = greedy_pass(tracks, dists, cands.drop_last(), claimed, min_hits, bound);
        let c = cands.last();
        match first_nearest(dists[c as int]@, open_tracks(tracks, prev.0, min_hits), bound) {
            Some(t) => (prev.0.update(t, true), prev.1.push((c, t as usize)), prev.2),
            None => (prev.0, prev.1, prev.2.push(c)),
        }
    }
}

/// The outcome of associating one frame's candidates with the tracks.
pub struct Association {
    /// Candidate positions by decreasing salience key (ties by position).
    pub order: Vec<usize>,
    /// (candidate, track) pairs formed within the matching bound.
    pub matched: Vec<(usize, usize)>,
    /// (candidate, track) pairs where an established track was re-acquired.
    pub reacquired: Vec<(usize, usize)>,
    /// Candidates left for spawning or revival, in salience order.
    pub spawnable: Vec<usize>,
    /// Which tracks took a candidate.
    pub claimed: Vec<bool>,
}

/// Every candidate's distance row has one key per track.
pub open spec fn dists_fit(dists: Seq<Vec<u32>>, n_tracks: nat) -> bool {
    forall|c: int| 0 <= c < dists.len() ==> (#[trigger] dists[c])@.len() == n_tracks
}

/// What `record_misses` makes of track `s` given whether it was claimed
/// and its faded payload: an unclaimed live track misses a frame.
pub open spec fn after_frame<P>(s: Slot<P>, claimed: bool, faded: P) -> Slot<P> {
    if !claimed && !is_dead(s) {
        Slot { id: s.id, hits: s.hits, misses: (s.misses + 1) as u32, state: faded }
    } else {
        s
    }
}

/// The two association passes over candidates in `order`: first every
/// candidate takes the nearest open track within `gate`; then each one left
/// over may re-acquire the nearest open track with at least
/// `ACTIVATE_HITS` hits within `reacquire`. Gives the pairs of each pass,
/// the candidates left for spawning, and the claimed flags.
pub open spec fn association_of<P>(
    tracks: Seq<Slot<P>>,
    dists: Seq<Vec<u32>>,
    order: Seq<usize>,
    gate: u32,
    reacquire: u32,
) -> (Seq<(usize, usize)>, Seq<(usize, usize)>, Seq<usize>, Seq<bool>) {
    let first = greedy_pass(tracks, dists, order, Seq::new(tracks.len(), |t: int| false), 0, gate);
    let second = greedy_pass(tracks, dists, first.2, first.0, ACTIVATE_HITS, reacquire);
    (first.1, second.1, second.2, second.0)
}

/// Facts about one greedy pass: it keeps the claimed flags' length, splits
/// the candidates between pairs and leftovers, pairs each candidate with an
/// open track within the bound, never gives one track two candidates, and
/// claims exactly the tracks already claimed plus the paired ones.
#[verifier::spinoff_prover]
pub proof fn lemma_greedy_pass<P>(
    tracks: Seq<Slot<P>>,
    dists: Seq<Vec<u32>>,
    cands: Seq<usize>,
    claimed: Seq<bool>,
    min_hits: u32,
    bound: u32,
)
    requires
        tracks.len() <= usize::MAX,
        claimed.len() == tracks.len(),
        dists_fit(dists, tracks.len()),
        forall|k: int| 0 <= k < cands.len() ==> #[trigger] cands[k] < dists.len(),
    ensures
        ({
            let r = greedy_pass(tracks, dists, cands, claimed, min_hits, bound);
            &&& r.0.len() == tracks.len()
            &&& r.1.len() + r.2.len() == cands.len()
            &&& forall|k: int| 0 <= k < r.2.len() ==> cands.contains(#[trigger] r.2[k])
            &&& forall|k: int| 0 <= k < r.1.len() ==> {
                let (c, t) = #[trigger] r.1[k];
                &&& cands.contains(c)
                &&& t < tracks.len()
                &&& !claimed[t as int]
                &&& r.0[t as int]
                &&& !is_dead(tracks[t as int])
                &&& tracks[t as int].hits >= min_hits
                &&& dists[c as int]@[t as int] < bound
            }
            &&& forall|a: int, b: int| 0 <= a < b < r.1.len() ==> (#[trigger] r.1[a]).1 != (#[trigger] r.1[b]).1
            &&& forall|t: int| 0 <= t < tracks.len() ==>
                (#[trigger] r.0[t] <==> (claimed[t] || exists|k: int| 0 <= k < r.1.len() && r.1[k].1 == t))
        }),
    decreases cands.len(),
{
    if cands.len() > 0 {
        let init = cands.drop_last();
        assert forall|k: int| 0 <= k < init.len() implies #[trigger] init[k] < dists.len() by {
            assert(init[k] == cands[k]);
        }
        lemma_greedy_pass(tracks, dists, init, claimed, min_hits, bound);
        let prev = greedy_pass(tracks, dists, init, claimed, min_hits, bound);
        let c = cands.last();
        let avail = open_tracks(tracks, prev.0, min_hits);
        let r = greedy_pass(tracks, dists, cands, claimed, min_hits, bound);
        assert forall|x: usize| init.contains(x) implies cands.contains(x) by {
            let w = choose|w: int| 0 <= w < init.len() && init[w] == x;
            assert(cands[w] == x);
        }
        assert(cands.contains(c)) by {
            assert(cands[cands.len() - 1] == c);
        }
        match first_nearest(dists[c as int]@, avail, bound) {
            Some(t) => {
                assert(is_first_nearest(dists[c as int]@, avail, bound, t));
                assert(0 <= t < tracks.len());
                assert(r.1 == prev.1.push((c, t as usize)));
                assert(r.0 == prev.0.update(t, true));
                assert(avail[t]);
                assert(!prev.0[t]);
                assert(!claimed[t]);
                assert forall|k: int| 0 <= k < r.1.len() implies {
                    let (c2, t2) = #[trigger] r.1[k];
                    &&& cands.contains(c2)
                    &&& t2 < tracks.len()
                    &&& !claimed[t2 as int]
                    &&& r.0[t2 as int]
                    &&& !is_dead(tracks[t2 as int])
                    &&& tracks[t2 as int].hits >= min_hits
                    &&& dists[c2 as int]@[t2 as int] < bound
                } by {
                    if k < prev.1.len() {
                        assert(r.1[k] == prev.1[k]);
                        assert(init.contains(prev.1[k].0));
                        assert(prev.0[prev.1[k].1 as int]);
                    } else {
                        assert(r.1[k] == (c, t as usize));
                    }
                }
                assert forall|a: int, b: int| 0 <= a < b < r.1.len() implies (#[trigger] r.1[a]).1 != (#[trigger] r.1[b]).1 by {
                    if b == prev.1.len() {
                        assert(r.1[a] == prev.1[a]);
                        assert(r.1[b] == (c, t as usize));
                        assert(prev.0[prev.1[a].1 as int]);
                    } else {
                        assert(r.1[a] == prev.1[a] && r.1[b] == prev.1[b]);
                    }
                }
                assert forall|t2: int| 0 <= t2 < tracks.len() implies
                    (#[trigger] r.0[t2] <==> (claimed[t2] || exists|k: int| 0 <= k < r.1.len() && r.1[k].1 == t2)) by {
                    if t2 == t {
                        assert(r.1[prev.1.len() as int].1 == t2);
                    } else {
                        if exists|k: int| 0 <= k < r.1.len() && r.1[k].1 == t2 {
                            let k = choose|k: int| 0 <= k < r.1.len() && r.1[k].1 == t2;
                            assert(r.1[k] == prev.1[k]);
                        }
                        if exists|k: int| 0 <= k < prev.1.len() && prev.1[k].1 == t2 {
                            let k = choose|k: int| 0 <= k < prev.1.len() && prev.1[k].1 == t2;
                            assert(r.1[k] == prev.1[k]);
                        }
                    }
                }
                assert forall|k: int| 0 <= k < r.2.len() implies cands.contains(#[trigger] r.2[k]) by {
                    assert(init.contains(prev.2[k]));
                }
            },
            None => {
                assert forall|k: int| 0 <= k < r.2.len() implies cands.contains(#[trigger] r.2[k]) by {
                    if k < prev.2.len() {
                        assert(r.2[k] == prev.2[k]);
                        assert(init.contains(prev.2[k]));
                    }
                }
                assert forall|k: int| 0 <= k < r.1.len() implies cands.contains((#[trigger] r.1[k]).0) by {
                    assert(init.contains(prev.1[k].0));
                }
            },
        }
    }
}

/// Greedy completeness laws of one pass: a candidate left without a track
/// had every unclaimed, live, sufficiently established track within the
/// bound already taken by an earlier candidate; and a paired candidate's
/// track is its nearest such track (ties to the earlier track), every
/// nearer one having been taken by an earlier pair.
#[verifier::spinoff_prover]
pub proof fn lemma_greedy_complete<P>(
    tracks: Seq<Slot<P>>,
    dists: Seq<Vec<u32>>,
    cands: Seq<usize>,
    claimed: Seq<bool>,
    min_hits: u32,
    bound: u32,
)
    requires
        tracks.len() <= usize::MAX,
        claimed.len() == tracks.len(),
        dists_fit(dists, tracks.len()),
        forall|k: int| 0 <= k < cands.len() ==> #[trigger] cands[k] < dists.len(),
    ensures
        ({
            let r = greedy_pass(tracks, dists, cands, claimed, min_hits, bound);
            &&& forall|j: int, t: int|
                #![trigger cands[j], tracks[t]]
                0 <= j < cands.len() && 0 <= t < tracks.len()
                    && !(exists|k: int| 0 <= k < r.1.len() && (#[trigger] r.1[k]).0 == cands[j])
                    && !claimed[t] && tracks[t].misses <= DEAD_MISSES && tracks[t].hits >= min_hits
                    && dists[cands[j] as int]@[t] < bound
                    ==> exists|k: int, i: int| 0 <= k < r.1.len() && 0 <= i < j
                        && (#[trigger] r.1[k]).1 == t && #[trigger] cands[i] == r.1[k].0
            &&& forall|k: int, u: int|
                #![trigger r.1[k], tracks[u]]
                0 <= k < r.1.len() && 0 <= u < tracks.len()
                    && !claimed[u] && tracks[u].misses <= DEAD_MISSES && tracks[u].hits >= min_hits
                    && (dists[r.1[k].0 as int]@[u] < dists[r.1[k].0 as int]@[r.1[k].1 as int]
                        || (dists[r.1[k].0 as int]@[u] == dists[r.1[k].0 as int]@[r.1[k].1 as int] && u < r.1[k].1))
                    ==> exists|k2: int| 0 <= k2 < k && (#[trigger] r.1[k2]).1 == u
        }),
    decreases cands.len(),
{
    if cands.len() > 0 {
        let init = cands.drop_last();
        assert forall|k: int| 0 <= k < init.len() implies #[trigger] init[k] < dists.len() by {
            assert(init[k] == cands[k]);
        }
        lemma_greedy_pass(tracks, dists, init, claimed, min_hits, bound);
        lemma_greedy_complete(tracks, dists, init, claimed, min_hits, bound);
        let prev = greedy_pass(tracks, dists, init, claimed, min_hits, bound);
        let r = greedy_pass(tracks, dists, cands, claimed, min_hits, bound);
        let n = init.len() as int;
        let c = cands.last();
        assert(cands[n] == c);
        let avail = open_tracks(tracks, prev.0, min_hits);
        crate::order::lemma_first_nearest_exists(dists[c as int]@, avail, bound);
        match first_nearest(dists[c as int]@, avail, bound) {
            Some(t0) => {
                assert(is_first_nearest(dists[c as int]@, avail, bound, t0));
                assert(r.1 == prev.1.push((c, t0 as usize)));
                assert forall|j: int, t: int|
                    #![trigger cands[j], tracks[t]]
                    0 <= j < cands.len() && 0 <= t < tracks.len()
                        && !(exists|k: int| 0 <= k < r.1.len() && (#[trigger] r.1[k]).0 == cands[j])
                        && !claimed[t] && tracks[t].misses <= DEAD_MISSES && tracks[t].hits >= min_hits
                        && dists[cands[j] as int]@[t] < bound
                        implies exists|k: int, i: int| 0 <= k < r.1.len() && 0 <= i < j
                            && (#[trigger] r.1[k]).1 == t && #[trigger] cands[i] == r.1[k].0 by {
                    if j == n {
                        assert(r.1[prev.1.len() as int].0 == cands[j]);
                    } else {
                        assert(init[j] == cands[j]);
                        assert forall|k: int| 0 <= k < prev.1.len() implies (#[trigger] prev.1[k]).0 != init[j] by {
                            assert(r.1[k] == prev.1[k]);
                        }
                        let (k, i) = choose|k: int, i: int| 0 <= k < prev.1.len() && 0 <= i < j
                            && (#[trigger] prev.1[k]).1 == t && #[trigger] init[i] == prev.1[k].0;
                        assert(r.1[k] == prev.1[k] && cands[i] == init[i]);
                    }
                }
                assert forall|k: int, u: int|
                    #![trigger r.1[k], tracks[u]]
                    0 <= k < r.1.len() && 0 <= u < tracks.len()
                        && !claimed[u] && tracks[u].misses <= DEAD_MISSES && tracks[u].hits >= min_hits
                        && (dists[r.1[k].0 as int]@[u] < dists[r.1[k].0 as int]@[r.1[k].1 as int]
                            || (dists[r.1[k].0 as int]@[u] == dists[r.1[k].0 as int]@[r.1[k].1 as int] && u < r.1[k].1))
                        implies exists|k2: int| 0 <= k2 < k && (#[trigger] r.1[k2]).1 == u by {
                    if k < prev.1.len() {
                        assert(r.1[k] == prev.1[k]);
                        let k2 = choose|k2: int| 0 <= k2 < k && (#[trigger] prev.1[k2]).1 == u;
                        assert(r.1[k2] == prev.1[k2]);
                    } else {
                        assert(r.1[k] == (c, t0 as usize));
                        if !prev.0[u] {
                            assert(avail[u]);
                        }
                        assert(prev.0[u]);
                        let k2 = choose|k2: int| 0 <= k2 < prev.1.len() && prev.1[k2].1 == u;
                        assert(r.1[k2] == prev.1[k2]);
                    }
                }
            },
            None => {
                assert(r.1 == prev.1);
                assert forall|j: int, t: int|
                    #![trigger cands[j], tracks[t]]
                    0 <= j < cands.len() && 0 <= t < tracks.len()
                        && !(exists|k: int| 0 <= k < r.1.len() && (#[trigger] r.1[k]).0 == cands[j])
                        && !claimed[t] && tracks[t].misses <= DEAD_MISSES && tracks[t].hits >= min_hits
                        && dists[cands[j] as int]@[t] < bound
                        implies exists|k: int, i: int| 0 <= k < r.1.len() && 0 <= i < j
                            && (#[trigger] r.1[k]).1 == t && #[trigger] cands[i] == r.1[k].0 by {
                    if j == n {
                        if !prev.0[t] {
                            assert(avail[t]);
                            assert(any_below(dists[c as int]@, avail, bound));
                        }
                        let k = choose|k: int| 0 <= k < prev.1.len() && prev.1[k].1 == t;
                        assert(init.contains(prev.1[k].0));
                        let i = choose|i: int| 0 <= i < init.len() && init[i] == prev.1[k].0;
                        assert(cands[i] == init[i]);
                    } else {
                        assert(init[j] == cands[j]);
                        let (k, i) = choose|k: int, i: int| 0 <= k < prev.1.len() && 0 <= i < j
                            && (#[trigger] prev.1[k]).1 == t && #[trigger] init[i] == prev.1[k].0;
                        assert(cands[i] == init[i]);
                    }
                }
            },
        }
    }
}

/// A greedy pass over distinct candidates uses each of them once: the
/// paired candidates are distinct, the leftovers are distinct, and no
/// candidate is both paired and left over.
#[verifier::spinoff_prover]
pub proof fn lemma_greedy_pass_distinct<P>(
    tracks: Seq<Slot<P>>,
    dists: Seq<Vec<u32>>,
    cands: Seq<usize>,
    claimed: Seq<bool>,
    min_hits: u32,
    bound: u32,
)
    requires
        tracks.len() <= usize::MAX,
        claimed.len() == tracks.len(),
        dists_fit(dists, tracks.len()),
        forall|k: int| 0 <= k < cands.len() ==> #[trigger] cands[k] < dists.len(),
        cands.no_duplicates(),
    ensures
        ({
            let r = greedy_pass(tracks, dists, cands, claimed, min_hits, bound);
            &&& forall|a: int, b: int| 0 <= a < b < r.1.len() ==> (#[trigger] r.1[a]).0 != (#[trigger] r.1[b]).0
            &&& r.2.no_duplicates()
            &&& forall|a: int, b: int| 0 <= a < r.1.len() && 0 <= b < r.2.len() ==> (#[trigger] r.1[a]).0 != #[trigger] r.2[b]
            &&& forall|k: int| 0 <= k < cands.len() ==>
                (exists|a: int| 0 <= a < r.1.len() && r.1[a].0 == #[trigger] cands[k]) || r.2.contains(cands[k])
        }),
    decreases cands.len(),
{
    if cands.len() > 0 {
        let init = cands.drop_last();
        assert forall|k: int| 0 <= k < init.len() implies #[trigger] init[k] < dists.len() by {
            assert(init[k] == cands[k]);
        }
        lemma_greedy_pass(tracks, dists, init, claimed, min_hits, bound);
        lemma_greedy_pass_distinct(tracks, dists, init, claimed, min_hits, bound);
        let prev = greedy_pass(tracks, dists, init, claimed, min_hits, bound);
        let r = greedy_pass(tracks, dists, cands, claimed, min_hits, bound);
        let c = cands.last();
        assert(!init.contains(c)) by {
            if init.contains(c) {
                let w = choose|w: int| 0 <= w < init.len() && init[w] == c;
                assert(cands[w] == cands[cands.len() - 1]);
            }
        }
        assert forall|k: int| 0 <= k < prev.1.len() implies (#[trigger] prev.1[k]).0 != c by {
            assert(init.contains(prev.1[k].0));
        }
        assert forall|k: int| 0 <= k < prev.2.len() implies #[trigger] prev.2[k] != c by {
            assert(init.contains(prev.2[k]));
        }
        let avail = open_tracks(tracks, prev.0, min_hits);
        match first_nearest(dists[c as int]@, avail, bound) {
            Some(t) => {
                assert(r.1 == prev.1.push((c, t as usize)));
                assert(r.2 == prev.2);
                assert forall|a: int, b: int| 0 <= a < b < r.1.len() implies (#[trigger] r.1[a]).0 != (#[trigger] r.1[b]).0 by {
                    assert(r.1[a] == prev.1[a]);
                    if b < prev.1.len() {
                        assert(r.1[b] == prev.1[b]);
                    }
                }
                assert forall|a: int, b: int| 0 <= a < r.1.len() && 0 <= b < r.2.len() implies (#[trigger] r.1[a]).0 != #[trigger] r.2[b] by {
                    if a < prev.1.len() {
                        assert(r.1[a] == prev.1[a]);
                    }
                }
                assert forall|k: int| 0 <= k < cands.len() implies
                    (exists|a: int| 0 <= a < r.1.len() && r.1[a].0 == #[trigger] cands[k]) || r.2.contains(cands[k]) by {
                    if k < init.len() {
                        assert(init[k] == cands[k]);
                        if exists|a: int| 0 <= a < prev.1.len() && prev.1[a].0 == init[k] {
                            let a = choose|a: int| 0 <= a < prev.1.len() && prev.1[a].0 == init[k];
                            assert(r.1[a] == prev.1[a]);
                        }
                    } else {
                        assert(r.1[prev.1.len() as int].0 == cands[k]);
                    }
                }
            },
            None => {
                assert(r.1 == prev.1);
                assert(r.2 == prev.2.push(c));
                assert forall|a: int, b: int| 0 <= a < r.2.len() && 0 <= b < r.2.len() && a != b implies r.2[a] != r.2[b] by {
                    if a < prev.2.len() {
                        assert(r.2[a] == prev.2[a]);
                    }
                    if b < prev.2.len() {
                        assert(r.2[b] == prev.2[b]);
                    }
                }
                assert forall|a: int, b: int| 0 <= a < r.1.len() && 0 <= b < r.2.len() implies (#[trigger] r.1[a]).0 != #[trigger] r.2[b] by {
                    if b < prev.2.len() {
                        assert(r.2[b] == prev.2[b]);
                    }
                }
                assert forall|k: int| 0 <= k < cands.len() implies
                    (exists|a: int| 0 <= a < r.1.len() && r.1[a].0 == #[trigger] cands[k]) || r.2.contains(cands[k]) by {
                    if k < init.len() {
                        assert(init[k] == cands[k]);
                        if prev.2.contains(init[k]) {
                            let w = choose|w: int| 0 <= w < prev.2.len() && prev.2[w] == init[k];
                            assert(r.2[w] == prev.2[w]);
                        }
                    } else {
                        assert(r.2[prev.2.len() as int] == cands[k]);
                    }
                }
            },
        }
    }
}

/// The candidates left over by the first association pass are
/// candidates, and they are distinct.
proof fn lemma_first_pass<P>(
    tracks: Seq<Slot<P>>,
    saliences: Seq<u32>,
    dists: Seq<Vec<u32>>,
    order: Seq<usize>,
    gate: u32,
)
    requires
        tracks.len() <= usize::MAX,
        dists.len() == saliences.len(),
        dists_fit(dists, tracks.len()),
        is_stable_order(saliences, true, order),
    ensures
        ({
            let first = greedy_pass(tracks, dists, order, Seq::new(tracks.len(), |t: int| false), 0, gate);
            &&& forall|k: int| 0 <= k < first.2.len() ==> #[trigger] first.2[k] < dists.len()
            &&& first.2.no_duplicates()
            &&& first.0.len() == tracks.len()
        }),
{
    let none = Seq::new(tracks.len(), |t: int| false);
    assert forall|k: int| 0 <= k < order.len() implies #[trigger] order[k] < dists.len() by {}
    assert(order.no_duplicates()) by {
        assert forall|a: int, b: int| 0 <= a < order.len() && 0 <= b < order.len() && a != b implies order[a] != order[b] by {
            if a < b {
                assert(precedes(saliences, true, order[a] as int, order[b] as int));
            } else {
                assert(precedes(saliences, true, order[b] as int, order[a] as int));
            }
        }
    }
    lemma_greedy_pass(tracks, dists, order, none, 0, gate);
    lemma_greedy_pass_distinct(tracks, dists, order, none, 0, gate);
    let first = greedy_pass(tracks, dists, order, none, 0, gate);
    assert forall|k: int| 0 <= k < first.2.len() implies #[trigger] first.2[k] < dists.len() by {
        assert(order.contains(first.2[k]));
    }
}

/// First-pass completeness: in salience `order`, a candidate left
/// unmatched found every live track within `gate` taken by a more salient
/// candidate.
pub open spec fn unmatched_complete<P>(
    tracks: Seq<Slot<P>>,
    dists: Seq<Vec<u32>>,
    order: Seq<usize>,
    matched: Seq<(usize, usize)>,
    gate: u32,
) -> bool {
    forall|j: int, t: int|
        #![trigger order[j], tracks[t]]
        0 <= j < order.len() && 0 <= t < tracks.len()
            && !(exists|k: int| 0 <= k < matched.len() && (#[trigger] matched[k]).0 == order[j])
            && tracks[t].misses <= DEAD_MISSES
            && dists[order[j] as int]@[t] < gate
            ==> exists|k: int, i: int| 0 <= k < matched.len() && 0 <= i < j
                && (#[trigger] matched[k]).1 == t && #[trigger] order[i] == matched[k].0
}

/// Nearest choice: each pair's track is the nearest track meeting `open`,
/// every nearer one (or equally near and earlier) having been taken by an
/// earlier pair or by one of `taken`.
pub open spec fn pairs_nearest<P>(
    tracks: Seq<Slot<P>>,
    dists: Seq<Vec<u32>>,
    pairs: Seq<(usize, usize)>,
    taken: Seq<(usize, usize)>,
    min_hits: u32,
) -> bool {
    forall|k: int, u: int|
        #![trigger pairs[k], tracks[u]]
        0 <= k < pairs.len() && 0 <= u < tracks.len()
            && tracks[u].misses <= DEAD_MISSES && tracks[u].hits >= min_hits
            && (dists[pairs[k].0 as int]@[u] < dists[pairs[k].0 as int]@[pairs[k].1 as int]
                || (dists[pairs[k].0 as int]@[u] == dists[pairs[k].0 as int]@[pairs[k].1 as int] && u < pairs[k].1))
            ==> (exists|k2: int| 0 <= k2 < taken.len() && (#[trigger] taken[k2]).1 == u)
                || (exists|k2: int| 0 <= k2 < k && (#[trigger] pairs[k2]).1 == u)
}

/// Re-acquire completeness: a spawnable candidate found every live track
/// with at least `ACTIVATE_HITS` hits within `reacquire` already taken.
pub open spec fn spawnable_complete<P>(
    tracks: Seq<Slot<P>>,
    dists: Seq<Vec<u32>>,
    matched: Seq<(usize, usize)>,
    reacquired: Seq<(usize, usize)>,
    spawnable: Seq<usize>,
    reacquire: u32,
) -> bool {
    forall|m: int, t: int|
        #![trigger spawnable[m], tracks[t]]
        0 <= m < spawnable.len() && 0 <= t < tracks.len()
            && tracks[t].misses <= DEAD_MISSES && tracks[t].hits >= ACTIVATE_HITS
            && dists[spawnable[m] as int]@[t] < reacquire
            ==> (exists|k: int| 0 <= k < matched.len() && (#[trigger] matched[k]).1 == t)
                || (exists|k: int| 0 <= k < reacquired.len() && (#[trigger] reacquired[k]).1 == t)
}

/// Greedy completeness of an association, stated on the tracks' own
/// counts: in salience `order`, each gate-matched candidate took the
/// nearest live track not yet taken; a candidate left unmatched found every
/// live track within `gate` taken by a more salient candidate; and the
/// re-acquire pass did the same among live tracks with at least
/// `ACTIVATE_HITS` hits within `reacquire`.
pub open spec fn association_complete<P>(
    tracks: Seq<Slot<P>>,
    dists: Seq<Vec<u32>>,
    order: Seq<usize>,
    matched: Seq<(usize, usize)>,
    reacquired: Seq<(usize, usize)>,
    spawnable: Seq<usize>,
    gate: u32,
    reacquire: u32,
) -> bool {
    &&& unmatched_complete(tracks, dists, order, matched, gate)
    &&& pairs_nearest(tracks, dists, matched, Seq::empty(), 0)
    &&& spawnable_complete(tracks, dists, matched, reacquired, spawnable, reacquire)
    &&& pairs_nearest(tracks, dists, reacquired, matched, ACTIVATE_HITS)
}

proof fn lemma_first_pass_complete<P>(
    tracks: Seq<Slot<P>>,
    saliences: Seq<u32>,
    dists: Seq<Vec<u32>>,
    order: Seq<usize>,
    gate: u32,
)
    requires
        tracks.len() <= usize::MAX,
        dists.len() == saliences.len(),
        dists_fit(dists, tracks.len()),
        is_stable_order(saliences, true, order),
    ensures
        ({
            let first = greedy_pass(tracks, dists, order, Seq::new(tracks.len(), |t: int| false), 0, gate);
            &&& unmatched_complete(tracks, dists, order, first.1, gate)
            &&& pairs_nearest(tracks, dists, first.1, Seq::empty(), 0)
        }),
{
    let none = Seq::new(tracks.len(), |t: int| false);
    assert forall|k: int| 0 <= k < order.len() implies #[trigger] order[k] < dists.len() by {}
    lemma_greedy_complete(tracks, dists, order, none, 0, gate);
    let first = greedy_pass(tracks, dists, order, none, 0, gate);
    assert forall|j: int, t: int|
        #![trigger order[j], tracks[t]]
        0 <= j < order.len() && 0 <= t < tracks.len()
            && !(exists|k: int| 0 <= k < first.1.len() && (#[trigger] first.1[k]).0 == order[j])
            && tracks[t].misses <= DEAD_MISSES
            && dists[order[j] as int]@[t] < gate
            implies exists|k: int, i: int| 0 <= k < first.1.len() && 0 <= i < j
                && (#[trigger] first.1[k]).1 == t && #[trigger] order[i] == first.1[k].0 by {
        assert(!none[t]);
    }
    assert forall|k: int, u: int|
        #![trigger first.1[k], tracks[u]]
        0 <= k < first.1.len() && 0 <= u < tracks.len()
            && tracks[u].misses <= DEAD_MISSES && tracks[u].hits >= 0
            && (dists[first.1[k].0 as int]@[u] < dists[first.1[k].0 as int]@[first.1[k].1 as int]
                || (dists[first.1[k].0 as int]@[u] == dists[first.1[k].0 as int]@[first.1[k].1 as int] && u < first.1[k].1))
            implies (exists|k2: int| 0 <= k2 < Seq::<(usize, usize)>::empty().len() && (#[trigger] Seq::<(usize, usize)>::empty()[k2]).1 == u)
                || (exists|k2: int| 0 <= k2 < k && (#[trigger] first.1[k2]).1 == u) by {
        assert(!none[u]);
    }
}

proof fn lemma_second_pass_complete<P>(
    tracks: Seq<Slot<P>>,
    saliences: Seq<u32>,
    dists: Seq<Vec<u32>>,
    order: Seq<usize>,
    gate: u32,
    reacquire: u32,
)
    requires
        tracks.len() <= usize::MAX,
        dists.len() == saliences.len(),
        dists_fit(dists, tracks.len()),
        is_stable_order(saliences, true, order),
    ensures
        ({
            let first = greedy_pass(tracks, dists, order, Seq::new(tracks.len(), |t: int| false), 0, gate);
            let second = greedy_pass(tracks, dists, first.2, first.0, ACTIVATE_HITS, reacquire);
            &&& spawnable_complete(tracks, dists, first.1, second.1, second.2, reacquire)
            &&& pairs_nearest(tracks, dists, second.1, first.1, ACTIVATE_HITS)
        }),
{
    let none = Seq::new(tracks.len(), |t: int| false);
    assert forall|k: int| 0 <= k < order.len() implies #[trigger] order[k] < dists.len() by {}
    lemma_greedy_pass(tracks, dists, order, none, 0, gate);
    lemma_first_pass(tracks, saliences, dists, order, gate);
    let first = greedy_pass(tracks, dists, order, none, 0, gate);
    lemma_greedy_pass(tracks, dists, first.2, first.0, ACTIVATE_HITS, reacquire);
    lemma_greedy_complete(tracks, dists, first.2, first.0, ACTIVATE_HITS, reacquire);
    lemma_greedy_pass_distinct(tracks, dists, first.2, first.0, ACTIVATE_HITS, reacquire);
    let second = greedy_pass(tracks, dists, first.2, first.0, ACTIVATE_HITS, reacquire);
    assert forall|m: int, t: int|
        #![trigger second.2[m], tracks[t]]
        0 <= m < second.2.len() && 0 <= t < tracks.len()
            && tracks[t].misses <= DEAD_MISSES && tracks[t].hits >= ACTIVATE_HITS
            && dists[second.2[m] as int]@[t] < reacquire
            implies (exists|k: int| 0 <= k < first.1.len() && (#[trigger] first.1[k]).1 == t)
                || (exists|k: int| 0 <= k < second.1.len() && (#[trigger] second.1[k]).1 == t) by {
        if first.0[t] {
            assert(!none[t]);
            let k = choose|k: int| 0 <= k < first.1.len() && first.1[k].1 == t;
            assert(first.1[k].1 == t);
        } else {
            let c = second.2[m];
            assert(first.2.contains(c));
            let j = choose|j: int| 0 <= j < first.2.len() && first.2[j] == c;
            assert forall|k: int| 0 <= k < second.1.len() implies (#[trigger] second.1[k]).0 != first.2[j] by {
                assert(second.1[k].0 != second.2[m]);
            }
            let (k, i) = choose|k: int, i: int| 0 <= k < second.1.len() && 0 <= i < j
                && (#[trigger] second.1[k]).1 == t && #[trigger] first.2[i] == second.1[k].0;
            assert(second.1[k].1 == t);
        }
    }
    assert forall|k: int, u: int|
        #![trigger second.1[k], tracks[u]]
        0 <= k < second.1.len() && 0 <= u < tracks.len()
            && tracks[u].misses <= DEAD_MISSES && tracks[u].hits >= ACTIVATE_HITS
            && (dists[second.1[k].0 as int]@[u] < dists[second.1[k].0 as int]@[second.1[k].1 as int]
                || (dists[second.1[k].0 as int]@[u] == dists[second.1[k].0 as int]@[second.1[k].1 as int] && u < second.1[k].1))
            implies (exists|k2: int| 0 <= k2 < first.1.len() && (#[trigger] first.1[k2]).1 == u)
                || (exists|k2: int| 0 <= k2 < k && (#[trigger] second.1[k2]).1 == u) by {
        if first.0[u] {
            assert(!none[u]);
            let k2 = choose|k2: int| 0 <= k2 < first.1.len() && first.1[k2].1 == u;
            assert(first.1[k2].1 == u);
        }
    }
}

/// Completeness laws of association, stated on the tracks' own counts:
/// matching in salience order takes, for each candidate, the nearest
/// live track not yet taken, and leaves a candidate unmatched only when
/// every live track closer than `gate` cents was taken by a more salient
/// one; the re-acquire pass does the same among live tracks with at least
/// `ACTIVATE_HITS` hits closer than `reacquire` cents.
pub proof fn lemma_association_complete<P>(
    tracks: Seq<Slot<P>>,
    saliences: Seq<u32>,
    dists: Seq<Vec<u32>>,
    order: Seq<usize>,
    gate: u32,
    reacquire: u32,
)
    requires
        tracks.len() <= usize::MAX,
        dists.len() == saliences.len(),
        dists_fit(dists, tracks.len()),
        is_stable_order(saliences, true, order),
    ensures
        ({
            let a = association_of(tracks, dists, order, gate, reacquire);
            association_complete(tracks, dists, order, a.0, a.1, a.2, gate, reacquire)
        }),
{
    lemma_first_pass_complete(tracks, saliences, dists, order, gate);
    lemma_second_pass_complete(tracks, saliences, dists, order, gate, reacquire);
}

/// Association laws on tracks: matched tracks are alive and within
/// `gate`; re-acquired tracks are alive, established and within
/// `reacquire`; no track takes two candidates over both passes; and the
/// claimed tracks are exactly the paired ones.
#[verifier::spinoff_prover]
pub proof fn lemma_association_tracks<P>(
    tracks: Seq<Slot<P>>,
    saliences: Seq<u32>,
    dists: Seq<Vec<u32>>,
    order: Seq<usize>,
    gate: u32,
    reacquire: u32,
)
    requires
        tracks.len() <= usize::MAX,
        dists.len() == saliences.len(),
        dists_fit(dists, tracks.len()),
        is_stable_order(saliences, true, order),
    ensures
        ({
            let a = association_of(tracks, dists, order, gate, reacquire);
            &&& forall|k: int| 0 <= k < a.0.len() ==> {
                let (c, t) = #[trigger] a.0[k];
                &&& t < tracks.len()
                &&& !is_dead(tracks[t as int])
                &&& dists[c as int]@[t as int] < gate
            }
            &&& forall|k: int| 0 <= k < a.1.len() ==> {
                let (c, t) = #[trigger] a.1[k];
                &&& t < tracks.len()
                &&& !is_dead(tracks[t as int])
                &&& tracks[t as int].hits >= ACTIVATE_HITS
                &&& dists[c as int]@[t as int] < reacquire
            }
            &&& forall|x: int, y: int| 0 <= x < y < a.0.len() ==> (#[trigger] a.0[x]).1 != (#[trigger] a.0[y]).1
            &&& forall|x: int, y: int| 0 <= x < y < a.1.len() ==> (#[trigger] a.1[x]).1 != (#[trigger] a.1[y]).1
            &&& forall|x: int, y: int| 0 <= x < a.0.len() && 0 <= y < a.1.len() ==> (#[trigger] a.0[x]).1 != (#[trigger] a.1[y]).1
            &&& a.3.len() == tracks.len()
            &&& forall|t: int| 0 <= t < tracks.len() ==> (#[trigger] a.3[t] <==> (
                (exists|k: int| 0 <= k < a.0.len() && a.0[k].1 == t)
                || (exists|k: int| 0 <= k < a.1.len() && a.1[k].1 == t)))
        }),
{
    let none = Seq::new(tracks.len(), |t: int| false);
    assert forall|k: int| 0 <= k < order.len() implies #[trigger] order[k] < dists.len() by {}
    lemma_greedy_pass(tracks, dists, order, none, 0, gate);
    lemma_first_pass(tracks, saliences, dists, order, gate);
    let first = greedy_pass(tracks, dists, order, none, 0, gate);
    lemma_greedy_pass(tracks, dists, first.2, first.0, ACTIVATE_HITS, reacquire);
    let second = greedy_pass(tracks, dists, first.2, first.0, ACTIVATE_HITS, reacquire);
    let a = association_of(tracks, dists, order, gate, reacquire);
    assert(a.0 == first.1 && a.1 == second.1 && a.3 == second.0);
    assert forall|x: int, y: int| 0 <= x < a.0.len() && 0 <= y < a.1.len() implies (#[trigger] a.0[x]).1 != (#[trigger] a.1[y]).1 by {
        assert(first.0[first.1[x].1 as int]);
    }
    assert forall|t: int| 0 <= t < tracks.len() implies (#[trigger] a.3[t] <==> (
        (exists|k: int| 0 <= k < a.0.len() && a.0[k].1 == t)
        || (exists|k: int| 0 <= k < a.1.len() && a.1[k].1 == t))) by {
        assert(!none[t]);
        assert(first.0[t] <==> (none[t] || exists|k: int| 0 <= k < first.1.len() && first.1[k].1 == t));
        assert(second.0[t] <==> (first.0[t] || exists|k: int| 0 <= k < second.1.len() && second.1[k].1 == t));
    }
}

/// Association laws on candidates: every candidate ends in exactly one of
/// the matched, re-acquired and spawnable lists.
#[verifier::spinoff_prover]
pub proof fn lemma_association_candidates<P>(
    tracks: Seq<Slot<P>>,
    saliences: Seq<u32>,
    dists: Seq<Vec<u32>>,
    order: Seq<usize>,
    gate: u32,
    reacquire: u32,
)
    requires
        tracks.len() <= usize::MAX,
        dists.len() == saliences.len(),
        dists_fit(dists, tracks.len()),
        is_stable_order(saliences, true, order),
    ensures
        ({
            let a = association_of(tracks, dists, order, gate, reacquire);
            let used = a.0.map_values(|p: (usize, usize)| p.0) + a.1.map_values(|p: (usize, usize)| p.0) + a.2;
            &&& used.len() == saliences.len()
            &&& used.no_duplicates()
            &&& forall|c: usize| c < saliences.len() ==> #[trigger] used.contains(c)
        }),
{
    let none = Seq::new(tracks.len(), |t: int| false);
    assert forall|k: int| 0 <= k < order.len() implies #[trigger] order[k] < dists.len() by {}
    lemma_greedy_pass(tracks, dists, order, none, 0, gate);
    lemma_first_pass(tracks, saliences, dists, order, gate);
    let first = greedy_pass(tracks, dists, order, none, 0, gate);
    lemma_greedy_pass_distinct(tracks, dists, order, none, 0, gate);
    lemma_greedy_pass(tracks, dists, first.2, first.0, ACTIVATE_HITS, reacquire);
    lemma_greedy_pass_distinct(tracks, dists, first.2, first.0, ACTIVATE_HITS, reacquire);
    let second = greedy_pass(tracks, dists, first.2, first.0, ACTIVATE_HITS, reacquire);
    let a = association_of(tracks, dists, order, gate, reacquire);
    assert(a.0 == first.1 && a.1 == second.1 && a.2 == second.2);
    let m0 = a.0.map_values(|p: (usize, usize)| p.0);
    let m1 = a.1.map_values(|p: (usize, usize)| p.0);
    let used = m0 + m1 + a.2;
    let n0 = m0.len();
    let n1 = m1.len();
    assert(used.len() == saliences.len());
    // every candidate of `order`, hence every candidate, is used
    assert forall|c: usize| c < saliences.len() implies #[trigger] used.contains(c) by {
        assert(order.contains(c));
        let k = choose|k: int| 0 <= k < order.len() && order[k] == c;
        if exists|x: int| 0 <= x < first.1.len() && first.1[x].0 == order[k] {
            let x = choose|x: int| 0 <= x < first.1.len() && first.1[x].0 == order[k];
            assert(used[x] == m0[x]);
        } else {
            assert(first.2.contains(c));
            let k2 = choose|k2: int| 0 <= k2 < first.2.len() && first.2[k2] == c;
            if exists|x: int| 0 <= x < second.1.len() && second.1[x].0 == first.2[k2] {
                let x = choose|x: int| 0 <= x < second.1.len() && second.1[x].0 == first.2[k2];
                assert(used[n0 + x] == m1[x]);
            } else {
                assert(second.2.contains(c));
                let x = choose|x: int| 0 <= x < second.2.len() && second.2[x] == c;
                assert(used[n0 + n1 + x] == second.2[x]);
            }
        }
    }
    assert forall|x: int, y: int| 0 <= x < used.len() && 0 <= y < used.len() && x != y implies used[x] != used[y] by {
        if x < n0 && y < n0 {
            if x < y {
                assert(m0[x] != m0[y]);
            } else {
                assert(m0[y] != m0[x]);
            }
        } else if x >= n0 && y >= n0 {
            let x2 = x - n0;
            let y2 = y - n0;
            if x2 < n1 && y2 < n1 {
                if x2 < y2 {
                    assert(m1[x2] != m1[y2]);
                } else {
                    assert(m1[y2] != m1[x2]);
                }
            } else if x2 < n1 {
                assert(m1[x2] != second.2[y2 - n1]);
            } else if y2 < n1 {
                assert(m1[y2] != second.2[x2 - n1]);
            } else {
                assert(second.2[x2 - n1] != second.2[y2 - n1]);
            }
        } else {
            // one is from the first pass, the other a leftover of it
            let (p, q) = if x < n0 { (x, y - n0) } else { (y, x - n0) };
            let v = if q < n1 { m1[q] } else { second.2[q - n1] };
            if q < n1 {
                assert(first.2.contains(second.1[q].0));
            } else {
                assert(first.2.contains(second.2[q - n1]));
            }
            let w = choose|w: int| 0 <= w < first.2.len() && first.2[w] == v;
            assert(first.1[p].0 != first.2[w]);
            assert(used[x] != used[y]);
        }
    }
}

/// What a frame's claims make of track `s`: a claimed track takes a hit,
/// clears its misses and takes its hit payload; an unclaimed one misses
/// the frame (see `after_frame`).
pub open spec fn after_claim<P>(s: Slot<P>, claimed: bool, hit: P, faded: P) -> Slot<P> {
    if claimed {
        Slot { id: s.id, hits: (s.hits + 1) as u32, misses: 0, state: hit }
    } else {
        after_frame(s, false, faded)
    }
}

/// What the revive-or-spawn pass did with one candidate.
#[derive(Clone, Copy, Debug, PartialEq, Eq, Structural)]
pub enum Fate {
    /// Not salient enough.
    Weak,
    /// Revived the dead track at this position.
    Revived(usize),
    /// A leaked harmonic of a live track: dropped.
    Leaked,
    /// Started the track with this identifier.
    Spawned(u32),
}

/// The per-candidate inputs of the revive-or-spawn pass, all computed
/// from real values by the library's user.
pub struct SpawnInputs<P> {
    /// Whether each candidate is salient enough to revive or start a track.
    pub strong: Vec<bool>,
    /// Key of each existing track's time since it was last seen.
    pub ages: Vec<u32>,
    /// Key of the longest time after which a dead track can be revived.
    pub revive_age: u32,
    /// Key of the largest distance at which a dead track can be revived.
    pub revive_cents: u32,
    /// `ghost_track[c][t]`: candidate `c` is a leaked harmonic of existing
    /// track `t` as it stands after the frame's claims.
    pub ghost_track: Vec<Vec<bool>>,
    /// `ghost_cand[c][d]`: candidate `c` is a leaked harmonic of a track
    /// carrying candidate `d`'s pitch and salience.
    pub ghost_cand: Vec<Vec<bool>>,
    /// `revive_states[c][t]`: the payload of existing track `t` when
    /// candidate `c` revives it.
    pub revive_states: Vec<Vec<P>>,
    /// The payload of a track started by each candidate.
    pub spawn_states: Vec<P>,
}

/// The inputs fit `n_tracks` existing tracks and `n_cands` candidates.
pub open spec fn inputs_fit<P>(inp: SpawnInputs<P>, dists: Seq<Vec<u32>>, n_tracks: nat, n_cands: nat) -> bool {
    &&& inp.strong@.len() == n_cands
    &&& inp.ages@.len() == n_tracks
    &&& dists.len() == n_cands
    &&& dists_fit(dists, n_tracks)
    &&& inp.ghost_track@.len() == n_cands
    &&& forall|c: int| 0 <= c < n_cands ==> (#[trigger] inp.ghost_track@[c])@.len() == n_tracks
    &&& inp.ghost_cand@.len() == n_cands
    &&& forall|c: int| 0 <= c < n_cands ==> (#[trigger] inp.ghost_cand@[c])@.len() == n_cands
    &&& inp.revive_states@.len() == n_cands
    &&& forall|c: int| 0 <= c < n_cands ==> (#[trigger] inp.revive_states@[c])@.len() == n_tracks
    &&& inp.spawn_states@.len() == n_cands
}

/// Existing track `t` (one of the first `ages.len()`) is dead, was seen
/// within `age_bound`, and lies within `cents_bound` of the candidate.
pub open spec fn revivable<P>(tracks: Seq<Slot<P>>, ages: Seq<u32>, dists: Seq<u32>, age_bound: u32, cents_bound: u32, t: int) -> bool {
    0 <= t < ages.len() && is_dead(tracks[t]) && ages[t] < age_bound && dists[t] < cents_bound
}

/// The first revivable track from position `t` on, if any.
pub open spec fn revival_from<P>(tracks: Seq<Slot<P>>, ages: Seq<u32>, dists: Seq<u32>, age_bound: u32, cents_bound: u32, t: nat) -> Option<int>
    decreases ages.len() - t,
{
    if t >= ages.len() {
        None
    } else if revivable(tracks, ages, dists, age_bound, cents_bound, t as int) {
        Some(t as int)
    } else {
        revival_from(tracks, ages, dists, age_bound, cents_bound, t + 1)
    }
}

/// The first revivable track, if any.
pub open spec fn revival_target_of<P>(tracks: Seq<Slot<P>>, ages: Seq<u32>, dists: Seq<u32>, age_bound: u32, cents_bound: u32) -> Option<int> {
    revival_from(tracks, ages, dists, age_bound, cents_bound, 0)
}

/// The track found from position `t` on is revivable, at or after `t`,
/// and the first such.
pub proof fn lemma_revival_from<P>(tracks: Seq<Slot<P>>, ages: Seq<u32>, dists: Seq<u32>, age_bound: u32, cents_bound: u32, t: nat)
    ensures
        revival_from(tracks, ages, dists, age_bound, cents_bound, t) matches Some(r) ==> {
            &&& t <= r
            &&& revivable(tracks, ages, dists, age_bound, cents_bound, r)
            &&& forall|u: int| t <= u < r ==> !#[trigger] revivable(tracks, ages, dists, age_bound, cents_bound, u)
        },
        revival_from(tracks, ages, dists, age_bound, cents_bound, t) is None ==>
            forall|u: int| t <= u ==> !#[trigger] revivable(tracks, ages, dists, age_bound, cents_bound, u),
    decreases ages.len() - t,
{
    if t < ages.len() && !revivable(tracks, ages, dists, age_bound, cents_bound, t as int) {
        lemma_revival_from(tracks, ages, dists, age_bound, cents_bound, t + 1);
    }
}

/// Candidate `c` is a leaked harmonic of live track `t`: judged against
/// the candidate whose pitch the track now carries, or else against the
/// track as it stood after the claims.
pub open spec fn ghost_of<P>(tracks: Seq<Slot<P>>, origin: Seq<Option<usize>>, inp: SpawnInputs<P>, c: int, t: int) -> bool {
    !is_dead(tracks[t]) && match origin[t] {
        Some(d) => inp.ghost_cand@[c]@[d as int],
        None => inp.ghost_track@[c]@[t],
    }
}

/// Candidate `c` is a leaked harmonic of some live track.
pub open spec fn shadowed<P>(tracks: Seq<Slot<P>>, origin: Seq<Option<usize>>, inp: SpawnInputs<P>, c: int) -> bool {
    exists|t: int| 0 <= t < tracks.len() && #[trigger] ghost_of(tracks, origin, inp, c, t)
}

/// One step of the revive-or-spawn pass for candidate `c` over the tracks,
/// the candidate each track's pitch came from in this pass, and the count
/// of tracks created: a weak candidate is dropped; otherwise it revives
/// the first revivable track; otherwise, unless it is a leaked harmonic,
/// it starts a track with the next identifier.
pub open spec fn spawn_step<P>(
    st: (Seq<Slot<P>>, Seq<Option<usize>>, nat),
    dists: Seq<Vec<u32>>,
    inp: SpawnInputs<P>,
    c: usize,
) -> (Seq<Slot<P>>, Seq<Option<usize>>, nat) {
    let (tracks, origin, created) = st;
    if !inp.strong@[c as int] {
        st
    } else {
        match revival_target_of(tracks, inp.ages@, dists[c as int]@, inp.revive_age, inp.revive_cents) {
            Some(t) => (
                tracks.update(t, Slot { id: tracks[t].id, hits: ACTIVATE_HITS, misses: 0, state: inp.revive_states@[c as int]@[t] }),
                origin.update(t, Some(c)),
                created,
            ),
            None => if shadowed(tracks, origin, inp, c as int) {
                st
            } else {
                (
                    tracks.push(Slot { id: (created + 1) as u32, hits: 1, misses: 0, state: inp.spawn_states@[c as int] }),
                    origin.push(Some(c)),
                    created + 1,
                )
            },
        }
    }
}

/// The revive-or-spawn pass over the candidates `cands`, in order.
pub open spec fn spawn_pass<P>(
    st: (Seq<Slot<P>>, Seq<Option<usize>>, nat),
    dists: Seq<Vec<u32>>,
    inp: SpawnInputs<P>,
    cands: Seq<usize>,
) -> (Seq<Slot<P>>, Seq<Option<usize>>, nat)
    decreases cands.len(),
{
    if cands.len() == 0 {
        st
    } else {
        spawn_step(spawn_pass(st, dists, inp, cands.drop_last()), dists, inp, cands.last())
    }
}

/// The tracks after a frame's claims, misses and revive-or-spawn pass,
/// before pruning, with the count of tracks created.
pub open spec fn frame_tracks<P>(
    tracks: Seq<Slot<P>>,
    created: nat,
    claimed: Seq<bool>,
    hit_states: Seq<P>,
    faded: Seq<P>,
    spawnable: Seq<usize>,
    dists: Seq<Vec<u32>>,
    inp: SpawnInputs<P>,
) -> (Seq<Slot<P>>, nat) {
    let claims = Seq::new(tracks.len(), |t: int| after_claim(tracks[t], claimed[t], hit_states[t], faded[t]));
    let sp = spawn_pass((claims, Seq::new(tracks.len(), |t: int| None::<usize>), created), dists, inp, spawnable);
    (sp.0, sp.2)
}

/// Lifecycle laws of a single track: a track that counts as shown is
/// alive; a freshly spawned track (one hit) is not shown yet; a revived
/// track (`ACTIVATE_HITS` hits, no miss) is shown at once.
pub proof fn lemma_lifecycle<P>(s: Slot<P>)
    ensures
        counts_active(s) ==> !is_dead(s),
        s.hits == 1 ==> !counts_active(s),
        s.hits == ACTIVATE_HITS && s.misses == 0 ==> counts_active(s),
{
}

/// Track `x` stands in `tracks` at a position where it survives pruning
/// with the expiry flags `expired`.
pub open spec fn kept_at<P>(tracks: Seq<Slot<P>>, expired: Seq<bool>, x: Slot<P>) -> bool {
    exists|w: int| 0 <= w < tracks.len() && #[trigger] tracks[w] == x && survives(tracks[w], expired[w])
}

/// Pruning laws: every kept track was in the bank and is no fluke; every
/// kept track stood at a position where it survives (so no kept track is
/// dead with its expiry flag set); no track that survives is lost, and
/// none is added.
pub proof fn lemma_survivors<P>(tracks: Seq<Slot<P>>, expired: Seq<bool>)
    requires
        expired.len() == tracks.len(),
    ensures
        survivors(tracks, expired).len() <= tracks.len(),
        forall|k: int| 0 <= k < survivors(tracks, expired).len() ==> {
            &&& tracks.contains(#[trigger] survivors(tracks, expired)[k])
            &&& !is_fluke(survivors(tracks, expired)[k])
        },
        forall|k: int| 0 <= k < survivors(tracks, expired).len() ==> kept_at(tracks, expired, #[trigger] survivors(tracks, expired)[k]),
        forall|k: int| 0 <= k < tracks.len() && survives(#[trigger] tracks[k], expired[k])
            ==> survivors(tracks, expired).contains(tracks[k]),
    decreases tracks.len(),
{
    if tracks.len() > 0 {
        let init = tracks.drop_last();
        let ex = expired.take(tracks.len() - 1);
        lemma_survivors(init, ex);
        let rest = survivors(init, ex);
        let r = survivors(tracks, expired);
        assert forall|k: int| 0 <= k < r.len() implies {
            &&& tracks.contains(#[trigger] r[k])
            &&& !is_fluke(r[k])
        } by {
            if k < rest.len() {
                assert(r[k] == rest[k]);
                let w = choose|w: int| 0 <= w < init.len() && init[w] == rest[k];
                assert(tracks[w] == rest[k]);
            } else {
                assert(tracks[tracks.len() - 1] == r[k]);
            }
        }
        assert forall|k: int| 0 <= k < tracks.len() && survives(#[trigger] tracks[k], expired[k])
            implies r.contains(tracks[k]) by {
            if k < tracks.len() - 1 {
                assert(init[k] == tracks[k]);
                assert(ex[k] == expired[k]);
                let w = choose|w: int| 0 <= w < rest.len() && rest[w] == init[k];
                assert(r[w] == tracks[k]);
            } else {
                assert(r[r.len() - 1] == tracks[k]);
            }
        }
        assert forall|k: int| 0 <= k < r.len() implies kept_at(tracks, expired, #[trigger] r[k]) by {
            if k < rest.len() {
                assert(r[k] == rest[k]);
                assert(kept_at(init, ex, rest[k]));
                let w = choose|w: int| 0 <= w < init.len() && #[trigger] init[w] == rest[k] && survives(init[w], ex[w]);
                assert(tracks[w] == init[w] && expired[w] == ex[w]);
                assert(tracks[w] == r[k] && survives(tracks[w], expired[w]));
            } else {
                let w = tracks.len() - 1;
                assert(tracks[w] == r[k]);
                assert(survives(tracks[w], expired[w]));
            }
        }
    }
}

/// What `begin_frame` makes of the tracks: live ones take their predicted
/// payload.
pub open spec fn begin_view<P>(tracks: Seq<Slot<P>>, predicted: Seq<P>) -> Seq<Slot<P>> {
    Seq::new(tracks.len(), |k: int| if is_dead(tracks[k]) {
        tracks[k]
    } else {
        Slot { id: tracks[k].id, hits: tracks[k].hits, misses: tracks[k].misses, state: predicted[k] }
    })
}

/// The shape every bank has: identifiers strictly increase along it and
/// lie in `1..=created`, and no miss count passes one beyond
/// `DEAD_MISSES`.
pub open spec fn bank_shape<P>(tracks: Seq<Slot<P>>, created: nat) -> bool {
    &&& forall|a: int, b: int| 0 <= a < b < tracks.len() ==> #[trigger] tracks[a].id < #[trigger] tracks[b].id
    &&& forall|k: int| 0 <= k < tracks.len() ==> 1 <= #[trigger] tracks[k].id <= created
    &&& forall|k: int| 0 <= k < tracks.len() ==> #[trigger] tracks[k].misses <= DEAD_MISSES + 1
}

/// Pruning keeps the bank's shape.
pub proof fn lemma_survivors_shape<P>(tracks: Seq<Slot<P>>, expired: Seq<bool>, created: nat)
    requires
        expired.len() == tracks.len(),
        bank_shape(tracks, created),
    ensures
        bank_shape(survivors(tracks, expired), created),
        forall|k: int| 0 <= k < survivors(tracks, expired).len() ==> tracks.contains(#[trigger] survivors(tracks, expired)[k]),
    decreases tracks.len(),
{
    lemma_survivors(tracks, expired);
    if tracks.len() > 0 {
        let init = tracks.drop_last();
        let ex = expired.take(tracks.len() - 1);
        assert(bank_shape(init, created)) by {
            assert forall|a: int, b: int| 0 <= a < b < init.len() implies #[trigger] init[a].id < #[trigger] init[b].id by {
                assert(init[a] == tracks[a] && init[b] == tracks[b]);
            }
            assert forall|k: int| 0 <= k < init.len() implies 1 <= #[trigger] init[k].id <= created by {
                assert(init[k] == tracks[k]);
            }
            assert forall|k: int| 0 <= k < init.len() implies #[trigger] init[k].misses <= DEAD_MISSES + 1 by {
                assert(init[k] == tracks[k]);
            }
        }
        lemma_survivors_shape(init, ex, created);
        lemma_survivors(init, ex);
        let rest = survivors(init, ex);
        let r = survivors(tracks, expired);
        let last = tracks.last();
        assert forall|k: int| 0 <= k < rest.len() implies #[trigger] rest[k].id < last.id by {
            let w = choose|w: int| 0 <= w < init.len() && init[w] == rest[k];
            assert(tracks[w] == rest[k]);
            assert(tracks[w].id < tracks[tracks.len() - 1].id);
        }
        assert forall|a: int, b: int| 0 <= a < b < r.len() implies #[trigger] r[a].id < #[trigger] r[b].id by {
            if b < rest.len() {
                assert(r[a] == rest[a] && r[b] == rest[b]);
            } else {
                assert(r[a] == rest[a]);
            }
        }
        assert forall|k: int| 0 <= k < r.len() implies 1 <= #[trigger] r[k].id <= created by {
            assert(tracks.contains(r[k]));
        }
        assert forall|k: int| 0 <= k < r.len() implies #[trigger] r[k].misses <= DEAD_MISSES + 1 by {
            assert(tracks.contains(r[k]));
        }
    }
}

/// What the revive-or-spawn pass keeps: the first `n0` tracks keep their
/// identifiers and miss counts stay bounded, and the tracks after them
/// were started in the pass, in order, with the identifiers following
/// `created`, one hit and no miss.
pub open spec fn pass_shape<P>(st: (Seq<Slot<P>>, Seq<Option<usize>>, nat), base: Seq<Slot<P>>, created: nat) -> bool {
    let n0 = base.len();
    &&& st.0.len() >= n0
    &&& st.2 == created + (st.0.len() - n0)
    &&& forall|k: int| 0 <= k < n0 ==> (#[trigger] st.0[k]).id == base[k].id
    &&& forall|k: int| 0 <= k < st.0.len() ==> (#[trigger] st.0[k]).misses <= DEAD_MISSES + 1
    &&& forall|k: int| n0 <= k < st.0.len() ==> {
        &&& (#[trigger] st.0[k]).id == created + (k - n0) + 1
        &&& st.0[k].hits == 1
        &&& st.0[k].misses == 0
    }
}

proof fn lemma_spawn_pass_shape<P>(
    base: Seq<Slot<P>>,
    origin: Seq<Option<usize>>,
    created: nat,
    dists: Seq<Vec<u32>>,
    inp: SpawnInputs<P>,
    cands: Seq<usize>,
)
    requires
        inp.ages@.len() == base.len(),
        created + cands.len() < u32::MAX,
        forall|k: int| 0 <= k < base.len() ==> (#[trigger] base[k]).misses <= DEAD_MISSES + 1,
    ensures
        pass_shape(spawn_pass((base, origin, created), dists, inp, cands), base, created),
        spawn_pass((base, origin, created), dists, inp, cands).0.len() <= base.len() + cands.len(),
    decreases cands.len(),
{
    if cands.len() > 0 {
        lemma_spawn_pass_shape(base, origin, created, dists, inp, cands.drop_last());
        let prev = spawn_pass((base, origin, created), dists, inp, cands.drop_last());
        let c = cands.last();
        let next = spawn_step(prev, dists, inp, c);
        if inp.strong@[c as int] {
            match revival_target_of(prev.0, inp.ages@, dists[c as int]@, inp.revive_age, inp.revive_cents) {
                Some(t) => {
                    lemma_revival_from(prev.0, inp.ages@, dists[c as int]@, inp.revive_age, inp.revive_cents, 0);
                    assert(revivable(prev.0, inp.ages@, dists[c as int]@, inp.revive_age, inp.revive_cents, t));
                    assert forall|k: int| 0 <= k < base.len() implies (#[trigger] next.0[k]).id == base[k].id by {
                        assert(prev.0[k].id == base[k].id);
                    }
                    assert forall|k: int| 0 <= k < next.0.len() implies (#[trigger] next.0[k]).misses <= DEAD_MISSES + 1 by {
                        assert(k != t ==> next.0[k] == prev.0[k]);
                    }
                    assert forall|k: int| base.len() <= k < next.0.len() implies {
                        &&& (#[trigger] next.0[k]).id == created + (k - base.len()) + 1
                        &&& next.0[k].hits == 1
                        &&& next.0[k].misses == 0
                    } by {
                        assert(next.0[k] == prev.0[k]);
                    }
                },
                None => {
                    if !shadowed(prev.0, prev.1, inp, c as int) {
                        assert forall|k: int| 0 <= k < base.len() implies (#[trigger] next.0[k]).id == base[k].id by {
                            assert(next.0[k] == prev.0[k]);
                        }
                        assert forall|k: int| 0 <= k < next.0.len() implies (#[trigger] next.0[k]).misses <= DEAD_MISSES + 1 by {
                            if k < prev.0.len() {
                                assert(next.0[k] == prev.0[k]);
                            }
                        }
                        assert forall|k: int| base.len() <= k < next.0.len() implies {
                            &&& (#[trigger] next.0[k]).id == created + (k - base.len()) + 1
                            &&& next.0[k].hits == 1
                            &&& next.0[k].misses == 0
                        } by {
                            if k < prev.0.len() {
                                assert(next.0[k] == prev.0[k]);
                            }
                        }
                    }
                },
            }
        }
    }
}

/// Frame update law: starting from any bank shape, a frame (prediction,
/// claims, misses, the revive-or-spawn pass and pruning, whatever the
/// association and the real-valued inputs) leaves the bank in shape with
/// no fewer tracks created, and every track created in the frame has one
/// hit and no miss.
pub proof fn lemma_frame_update<P>(
    tracks: Seq<Slot<P>>,
    created: nat,
    predicted: Seq<P>,
    claimed: Seq<bool>,
    hit_states: Seq<P>,
    faded: Seq<P>,
    spawnable: Seq<usize>,
    dists: Seq<Vec<u32>>,
    inp: SpawnInputs<P>,
    expired: Seq<bool>,
)
    requires
        bank_shape(tracks, created),
        predicted.len() == tracks.len(),
        claimed.len() == tracks.len(),
        hit_states.len() == tracks.len(),
        faded.len() == tracks.len(),
        expired.len() == tracks.len(),
        inp.ages@.len() == tracks.len(),
        created + spawnable.len() < u32::MAX,
    ensures
        ({
            let fr = frame_tracks(begin_view(tracks, predicted), created, claimed, hit_states, faded, spawnable, dists, inp);
            let after = survivors(fr.0, expired + Seq::new((fr.0.len() - tracks.len()) as nat, |k: int| false));
            &&& fr.1 >= created
            &&& bank_shape(after, fr.1)
            &&& forall|k: int| 0 <= k < after.len() && #[trigger] after[k].id > created ==> after[k].hits == 1 && after[k].misses == 0
            &&& forall|k: int| 0 <= k < after.len() ==> !is_fluke(#[trigger] after[k])
            &&& forall|k: int| 0 <= k < after.len() && is_dead(#[trigger] after[k]) ==>
                exists|w: int| 0 <= w < tracks.len() && #[trigger] tracks[w].id == after[k].id && !expired[w]
        }),
{
    let begun = begin_view(tracks, predicted);
    let claims = Seq::new(begun.len(), |t: int| after_claim(begun[t], claimed[t], hit_states[t], faded[t]));
    let none = Seq::new(begun.len(), |t: int| None::<usize>);
    assert forall|k: int| 0 <= k < claims.len() implies (#[trigger] claims[k]).misses <= DEAD_MISSES + 1 by {
        assert(tracks[k].misses <= DEAD_MISSES + 1);
    }
    lemma_spawn_pass_shape(claims, none, created, dists, inp, spawnable);
    let sp = spawn_pass((claims, none, created), dists, inp, spawnable);
    let fr = frame_tracks(begun, created, claimed, hit_states, faded, spawnable, dists, inp);
    assert(fr.0 == sp.0 && fr.1 == sp.2);
    let n0 = tracks.len();
    assert forall|k: int| 0 <= k < n0 implies (#[trigger] sp.0[k]).id == tracks[k].id by {
        assert(claims[k].id == tracks[k].id);
    }
    assert(bank_shape(sp.0, sp.2)) by {
        assert forall|a: int, b: int| 0 <= a < b < sp.0.len() implies #[trigger] sp.0[a].id < #[trigger] sp.0[b].id by {
            if b < n0 {
                assert(tracks[a].id < tracks[b].id);
            } else if a < n0 {
                assert(tracks[a].id <= created);
            }
        }
        assert forall|k: int| 0 <= k < sp.0.len() implies 1 <= #[trigger] sp.0[k].id <= sp.2 by {
            if k < n0 {
                assert(1 <= tracks[k].id <= created);
            }
        }
    }
    let ex = expired + Seq::new((sp.0.len() - n0) as nat, |k: int| false);
    lemma_survivors_shape(sp.0, ex, sp.2);
    let after = survivors(sp.0, ex);
    assert forall|k: int| 0 <= k < after.len() && #[trigger] after[k].id > created implies after[k].hits == 1 && after[k].misses == 0 by {
        assert(sp.0.contains(after[k]));
        let w = choose|w: int| 0 <= w < sp.0.len() && sp.0[w] == after[k];
        if w < n0 {
            assert(tracks[w].id <= created);
        }
    }
    lemma_survivors(sp.0, ex);
    assert forall|k: int| 0 <= k < after.len() && is_dead(#[trigger] after[k]) implies
        exists|w: int| 0 <= w < tracks.len() && #[trigger] tracks[w].id == after[k].id && !expired[w] by {
        assert(kept_at(sp.0, ex, after[k]));
        let w = choose|w: int| 0 <= w < sp.0.len() && #[trigger] sp.0[w] == after[k] && survives(sp.0[w], ex[w]);
        assert(w < n0);
        assert(ex[w] == expired[w]);
        assert(tracks[w].id == after[k].id);
    }
}

impl<P> Bank<P> {
    /// Identifiers increase along the bank and stay below the next one to
    /// hand out; miss counts stop growing once a track is dead.
    #[verifier::type_invariant]
    pub closed spec fn wf(&self) -> bool {
        &&& self.next_id >= 1
        &&& forall|a: int, b: int| 0 <= a < b < self.tracks@.len() ==> #[trigger] self.tracks@[a].id < #[trigger] self.tracks@[b].id
        &&& forall|k: int| 0 <= k < self.tracks@.len() ==> 1 <= #[trigger] self.tracks@[k].id < self.next_id
        &&& forall|k: int| 0 <= k < self.tracks@.len() ==> #[trigger] self.tracks@[k].misses <= DEAD_MISSES + 1
    }

    /// How many tracks have ever been created.
    pub closed spec fn created(&self) -> nat {
        (self.next_id - 1) as nat
    }

    /// Identity law: along a well-formed bank identifiers strictly
    /// increase (so no two tracks share one), and none exceeds the number
    /// of tracks ever created; a dead track's miss count stops at one past
    /// `DEAD_MISSES`.
    pub proof fn lemma_identity(&self)
        requires
            self.wf(),
        ensures
            forall|a: int, b: int| 0 <= a < b < self@.len() ==> #[trigger] self@[a].id < #[trigger] self@[b].id,
            forall|k: int| 0 <= k < self@.len() ==> 1 <= #[trigger] self@[k].id <= self.created(),
            forall|k: int| 0 <= k < self@.len() ==> #[trigger] self@[k].misses <= DEAD_MISSES + 1,
            bank_shape(self@, self.created()),
    {
    }
}

impl<P: Copy> Bank<P> {
    /// An empty bank.
    pub fn new() -> (b: Self)
        ensures
            b@ == Seq::<Slot<P>>::empty(),
            b.created() == 0,
            b.wf(),
    {
        Bank { tracks: Vec::new(), next_id: 1 }
    }

    /// Number of tracks held (alive or dead).
    pub fn len(&self) -> (n: usize)
        ensures
            n == self@.len(),
            self.wf(),
    {
        proof {
            use_type_invariant(self);
        }
        self.tracks.len()
    }

    /// The `i`-th track.
    pub fn slot(&self, i: usize) -> (s: &Slot<P>)
        requires
            i < self@.len(),
        ensures
            *s == self@[i as int],
            self.wf(),
    {
        proof {
            use_type_invariant(self);
        }
        &self.tracks[i]
    }

    /// How many tracks have ever been created.
    pub fn tracks_created(&self) -> (n: u32)
        ensures
            n == self.created(),
            self.wf(),
    {
        proof {
            use_type_invariant(self);
        }
        self.next_id - 1
    }

    /// Starts a new track with payload `state`: one hit, no miss, the next
    /// identifier. Returns that identifier.
    pub fn spawn(&mut self, state: P) -> (id: u32)
        requires
            old(self).created() + 1 < u32::MAX,
        ensures
            id == old(self).created() + 1,
            final(self)@ == old(self)@.push(Slot { id, hits: 1, misses: 0, state }),
            final(self).created() == old(self).created() + 1,
            forall|k: int| 0 <= k < old(self)@.len() ==> #[trigger] old(self)@[k].id < id,
            final(self).wf(),
    {
        proof {
            use_type_invariant(&*self);
        }
        let id = self.next_id;
        let mut tracks: Vec<Slot<P>> = Vec::new();
        std::mem::swap(&mut tracks, &mut self.tracks);
        tracks.push(Slot { id, hits: 1, misses: 0, state });
        self.next_id = id + 1;
        self.tracks = tracks;
        proof {
            use_type_invariant(&*self);
        }
        id
    }

    /// Replaces track `i`'s payload; its identity and counts stay.
    pub fn set_state(&mut self, i: usize, state: P)
        requires
            i < old(self)@.len(),
        ensures
            final(self)@ == old(self)@.update(
                i as int,
                Slot { id: old(self)@[i as int].id, hits: old(self)@[i as int].hits, misses: old(self)@[i as int].misses, state },
            ),
            final(self).created() == old(self).created(),
            final(self).wf(),
    {
        proof {
            use_type_invariant(&*self);
        }
        let mut tracks: Vec<Slot<P>> = Vec::new();
        std::mem::swap(&mut tracks, &mut self.tracks);
        let s = Slot { id: tracks[i].id, hits: tracks[i].hits, misses: tracks[i].misses, state };
        tracks.set(i, s);
        self.tracks = tracks;
        proof {
            use_type_invariant(&*self);
        }
    }

    /// Track `i` took a candidate: one more hit, misses reset, new payload.
    pub fn record_hit(&mut self, i: usize, state: P)
        requires
            i < old(self)@.len(),
            old(self)@[i as int].hits < u32::MAX,
        ensures
            final(self)@ == old(self)@.update(
                i as int,
                Slot { id: old(self)@[i as int].id, hits: (old(self)@[i as int].hits + 1) as u32, misses: 0, state },
            ),
            final(self).created() == old(self).created(),
            final(self).wf(),
    {
        proof {
            use_type_invariant(&*self);
        }
        let mut tracks: Vec<Slot<P>> = Vec::new();
        std::mem::swap(&mut tracks, &mut self.tracks);
        let s = Slot { id: tracks[i].id, hits: tracks[i].hits + 1, misses: 0, state };
        tracks.set(i, s);
        self.tracks = tracks;
        proof {
            use_type_invariant(&*self);
        }
    }

    /// Track `i` is plucked again: it resumes as shown at once (hits set to
    /// `ACTIVATE_HITS`, misses reset), with a new payload.
    pub fn revive(&mut self, i: usize, state: P)
        requires
            i < old(self)@.len(),
        ensures
            final(self)@ == old(self)@.update(
                i as int,
                Slot { id: old(self)@[i as int].id, hits: ACTIVATE_HITS, misses: 0, state },
            ),
            final(self).created() == old(self).created(),
            final(self).wf(),
    {
        proof {
            use_type_invariant(&*self);
        }
        let mut tracks: Vec<Slot<P>> = Vec::new();
        std::mem::swap(&mut tracks, &mut self.tracks);
        let s = Slot { id: tracks[i].id, hits: ACTIVATE_HITS, misses: 0, state };
        tracks.set(i, s);
        self.tracks = tracks;
        proof {
            use_type_invariant(&*self);
        }
    }

    /// Every unclaimed live track misses this frame and takes its faded
    /// payload; the other tracks are left as they are.
    pub fn record_misses(&mut self, claimed: &Vec<bool>, faded: &Vec<P>)
        requires
            claimed.len() == old(self)@.len(),
            faded.len() == old(self)@.len(),
        ensures
            final(self)@.len() == old(self)@.len(),
            forall|k: int| 0 <= k < old(self)@.len() ==> #[trigger] final(self)@[k] == after_frame(old(self)@[k], claimed@[k], faded@[k]),
            final(self).created() == old(self).created(),
            final(self).wf(),
    {
        proof {
            use_type_invariant(&*self);
        }
        let mut tracks: Vec<Slot<P>> = Vec::new();
        std::mem::swap(&mut tracks, &mut self.tracks);
        let ghost orig = tracks@;
        let n = tracks.len();
        let mut i: usize = 0;
        while i < n
            invariant
                n == tracks.len(),
                n == orig.len(),
                n == claimed.len(),
                n == faded.len(),
                i <= n,
                forall|k: int| 0 <= k < i ==> #[trigger] tracks@[k] == after_frame(orig[k], claimed@[k], faded@[k]),
                forall|k: int| i <= k < n ==> #[trigger] tracks@[k] == orig[k],
                forall|k: int| 0 <= k < n ==> #[trigger] orig[k].misses <= DEAD_MISSES + 1,
            decreases n - i,
        {
            if !claimed[i] && !tracks[i].dead() {
                let s = Slot { id: tracks[i].id, hits: tracks[i].hits, misses: tracks[i].misses + 1, state: faded[i] };
                tracks.set(i, s);
            }
            i += 1;
        }
        self.tracks = tracks;
        proof {
            use_type_invariant(&*self);
        }
    }

    /// Drops the one-frame flukes, and the dead tracks whose `expired` flag
    /// is set; the others keep their order.
    pub fn prune(&mut self, expired: &Vec<bool>)
        requires
            expired.len() == old(self)@.len(),
        ensures
            final(self)@ == survivors(old(self)@, expired@),
            final(self).created() == old(self).created(),
            final(self).wf(),
    {
        proof {
            use_type_invariant(&*self);
        }
        let mut tracks: Vec<Slot<P>> = Vec::new();
        std::mem::swap(&mut tracks, &mut self.tracks);
        let ghost next = self.next_id;
        let n = tracks.len();
        let mut kept: Vec<Slot<P>> = Vec::new();
        let mut i: usize = 0;
        while i < n
            invariant
                n == tracks.len(),
                n == expired.len(),
                i <= n,
                next == self.next_id,
                forall|a: int, b: int| 0 <= a < b < n ==> #[trigger] tracks@[a].id < #[trigger] tracks@[b].id,
                forall|k: int| 0 <= k < n ==> 1 <= #[trigger] tracks@[k].id < next,
                forall|k: int| 0 <= k < n ==> #[trigger] tracks@[k].misses <= DEAD_MISSES + 1,
                kept@ == survivors(tracks@.take(i as int), expired@.take(i as int)),
                forall|a: int, b: int| 0 <= a < b < kept.len() ==> #[trigger] kept@[a].id < #[trigger] kept@[b].id,
                forall|k: int| 0 <= k < kept.len() ==> 1 <= #[trigger] kept@[k].id,
                forall|k: int| 0 <= k < kept.len() ==> #[trigger] kept@[k].misses <= DEAD_MISSES + 1,
                forall|k: int| 0 <= k < kept.len() ==> (#[trigger] kept@[k]).id < if i < n { tracks@[i as int].id } else { next },
            decreases n - i,
        {
            proof {
                assert(tracks@.take(i + 1).drop_last() =~= tracks@.take(i as int));
                assert(expired@.take(i + 1).take(i as int) =~= expired@.take(i as int));
            }
            let t = &tracks[i];
            let fluke = t.hits < 2 && t.misses > 0;
            if !fluke && !(t.dead() && expired[i]) {
                kept.push(Slot { id: t.id, hits: t.hits, misses: t.misses, state: t.state });
            }
            proof {
                if i + 1 < n {
                    assert(tracks@[i as int].id < tracks@[i + 1].id);
                }
            }
            i += 1;
        }
        proof {
            assert(tracks@.take(n as int) =~= tracks@);
            assert(expired@.take(n as int) =~= expired@);
        }
        self.tracks = kept;
        proof {
            use_type_invariant(&*self);
        }
    }

    /// One greedy pass over `cands` (see `greedy_pass`).
    fn run_pass(
        &self,
        dists: &Vec<Vec<u32>>,
        cands: &Vec<usize>,
        claimed: Vec<bool>,
        min_hits: u32,
        bound: u32,
    ) -> (res: (Vec<bool>, Vec<(usize, usize)>, Vec<usize>))
        requires
            claimed.len() == self@.len(),
            dists_fit(dists@, self@.len()),
            forall|k: int| 0 <= k < cands.len() ==> #[trigger] cands@[k] < dists.len(),
        ensures
            (res.0@, res.1@, res.2@) == greedy_pass(self@, dists@, cands@, claimed@, min_hits, bound),
    {
        let n = self.tracks.len();
        let mut cl = claimed;
        let mut pairs: Vec<(usize, usize)> = Vec::new();
        let mut rest: Vec<usize> = Vec::new();
        let mut i: usize = 0;
        while i < cands.len()
            invariant
                n == self@.len(),
                dists_fit(dists@, self@.len()),
                forall|k: int| 0 <= k < cands.len() ==> #[trigger] cands@[k] < dists.len(),
                i <= cands.len(),
                cl.len() == n,
                (cl@, pairs@, rest@) == greedy_pass(self@, dists@, cands@.take(i as int), claimed@, min_hits, bound),
            decreases cands.len() - i,
        {
            let c = cands[i];
            let mut avail: Vec<bool> = Vec::new();
            let mut t: usize = 0;
            while t < n
                invariant
                    n == self@.len(),
                    cl.len() == n,
                    t <= n,
                    avail.len() == t,
                    forall|k: int| 0 <= k < t ==> #[trigger] avail@[k] == open_tracks(self@, cl@, min_hits)[k],
                decreases n - t,
            {
                let s = &self.tracks[t];
                avail.push(!cl[t] && !s.dead() && s.hits >= min_hits);
                t += 1;
            }
            proof {
                assert(avail@ =~= open_tracks(self@, cl@, min_hits));
                assert(cands@.take(i + 1).drop_last() =~= cands@.take(i as int));
                assert(cands@.take(i + 1).last() == c);
            }
            match nearest_below(&dists[c], &avail, bound) {
                Some(t) => {
                    cl.set(t, true);
                    pairs.push((c, t));
                },
                None => {
                    rest.push(c);
                },
            }
            i += 1;
        }
        proof {
            assert(cands@.take(cands.len() as int) =~= cands@);
        }
        (cl, pairs, rest)
    }

    /// Associates one frame's candidates with the tracks. Candidate `c` has
    /// salience key `saliences[c]`, and `dists[c][t]` is the key of its
    /// distance to track `t`. Candidates go by decreasing salience; each
    /// takes the nearest open live track within `gate`, then each one left
    /// over may re-acquire the nearest open track with at least
    /// `ACTIVATE_HITS` hits within `reacquire`.
    pub fn associate(&self, saliences: &Vec<u32>, dists: &Vec<Vec<u32>>, gate: u32, reacquire: u32) -> (a: Association)
        requires
            dists.len() == saliences.len(),
            dists_fit(dists@, self@.len()),
        ensures
            is_stable_order(saliences@, true, a.order@),
            (a.matched@, a.reacquired@, a.spawnable@, a.claimed@) == association_of(self@, dists@, a.order@, gate, reacquire),
            association_complete(self@, dists@, a.order@, a.matched@, a.reacquired@, a.spawnable@, gate, reacquire),
    {
        let order = stable_order(saliences, true);
        let n = self.len();
        let mut none: Vec<bool> = Vec::new();
        let mut t: usize = 0;
        while t < n
            invariant
                t <= n,
                none.len() == t,
                forall|k: int| 0 <= k < t ==> !#[trigger] none@[k],
            decreases n - t,
        {
            none.push(false);
            t += 1;
        }
        proof {
            assert(none@ =~= Seq::new(self@.len(), |t: int| false));
        }
        let first = self.run_pass(dists, &order, none, 0, gate);
        proof {
            lemma_greedy_pass(self@, dists@, order@, Seq::new(self@.len(), |t: int| false), 0, gate);
            assert forall|k: int| 0 <= k < first.2.len() implies #[trigger] first.2@[k] < dists.len() by {
                assert(order@.contains(first.2@[k]));
            }
        }
        let second = self.run_pass(dists, &first.2, first.0, ACTIVATE_HITS, reacquire);
        proof {
            use_type_invariant(self);
            lemma_association_complete(self@, saliences@, dists@, order@, gate, reacquire);
        }
        Association { order, matched: first.1, reacquired: second.1, spawnable: second.2, claimed: second.0 }
    }


    /// Starts a frame: every live track takes its `predicted` payload; dead
    /// tracks are left as they are. Identities, counts and the number of
    /// tracks created do not change.
    pub fn begin_frame(&mut self, predicted: &Vec<P>)
        requires
            predicted.len() == old(self)@.len(),
        ensures
            final(self)@ == begin_view(old(self)@, predicted@),
            final(self).created() == old(self).created(),
            final(self).wf(),
    {
        let ghost orig = self@;
        let n = self.len();
        let mut t: usize = 0;
        while t < n
            invariant
                n == orig.len(),
                n == predicted.len(),
                self@.len() == n,
                self.created() == old(self).created(),
                t <= n,
                forall|k: int| 0 <= k < t ==> #[trigger] self@[k] == if is_dead(orig[k]) {
                    orig[k]
                } else {
                    Slot { id: orig[k].id, hits: orig[k].hits, misses: orig[k].misses, state: predicted@[k] }
                },
                forall|k: int| t <= k < n ==> #[trigger] self@[k] == orig[k],
            decreases n - t,
        {
            if !self.slot(t).dead() {
                self.set_state(t, predicted[t]);
            }
            t += 1;
        }
        proof {
            use_type_invariant(&*self);
            assert(self@ =~= begin_view(orig, predicted@));
        }
    }

    /// The first of the existing tracks `0..ages.len()` that is dead, whose
    /// age key is below `age_bound` and whose distance key is below
    /// `cents_bound`: the track a candidate revives.
    pub fn revival_target(&self, ages: &Vec<u32>, dists: &Vec<u32>, age_bound: u32, cents_bound: u32) -> (r: Option<usize>)
        requires
            ages.len() <= self@.len(),
            dists.len() == ages.len(),
        ensures
            r is None <==> revival_target_of(self@, ages@, dists@, age_bound, cents_bound) is None,
            r matches Some(t) ==> revival_target_of(self@, ages@, dists@, age_bound, cents_bound) == Some(t as int)
                && revivable(self@, ages@, dists@, age_bound, cents_bound, t as int),
    {
        let n = ages.len();
        let mut t: usize = 0;
        while t < n
            invariant
                n == ages.len(),
                n == dists.len(),
                n <= self@.len(),
                t <= n,
                revival_target_of(self@, ages@, dists@, age_bound, cents_bound)
                    == revival_from(self@, ages@, dists@, age_bound, cents_bound, t as nat),
            decreases n - t,
        {
            if self.slot(t).dead() && ages[t] < age_bound && dists[t] < cents_bound {
                return Some(t);
            }
            t += 1;
        }
        None
    }

    /// Whether candidate `c` is a leaked harmonic of some live track (see
    /// `shadowed`).
    fn leaked_harmonic(&self, origin: &Vec<Option<usize>>, c: usize, inp: &SpawnInputs<P>, n0: usize) -> (g: bool)
        requires
            c < inp.strong.len(),
            n0 <= self@.len(),
            origin.len() == self@.len(),
            inp.ghost_track@.len() == inp.strong@.len(),
            forall|x: int| 0 <= x < inp.strong@.len() ==> (#[trigger] inp.ghost_track@[x])@.len() == n0,
            inp.ghost_cand@.len() == inp.strong@.len(),
            forall|x: int| 0 <= x < inp.strong@.len() ==> (#[trigger] inp.ghost_cand@[x])@.len() == inp.strong@.len(),
            forall|j: int| 0 <= j < origin.len() && #[trigger] origin@[j] is None ==> j < n0,
            forall|j: int| 0 <= j < origin.len() ==> (#[trigger] origin@[j] matches Some(d) ==> d < inp.strong.len()),
        ensures
            g == shadowed(self@, origin@, *inp, c as int),
    {
        let m = self.len();
        let mut u: usize = 0;
        while u < m
            invariant
                m == self@.len(),
                m == origin.len(),
                n0 <= m,
                c < inp.strong.len(),
                inp.ghost_track@.len() == inp.strong@.len(),
                forall|x: int| 0 <= x < inp.strong@.len() ==> (#[trigger] inp.ghost_track@[x])@.len() == n0,
                inp.ghost_cand@.len() == inp.strong@.len(),
                forall|x: int| 0 <= x < inp.strong@.len() ==> (#[trigger] inp.ghost_cand@[x])@.len() == inp.strong@.len(),
                forall|j: int| 0 <= j < origin.len() && #[trigger] origin@[j] is None ==> j < n0,
                forall|j: int| 0 <= j < origin.len() ==> (#[trigger] origin@[j] matches Some(d) ==> d < inp.strong.len()),
                u <= m,
                forall|j: int| 0 <= j < u ==> !#[trigger] ghost_of(self@, origin@, *inp, c as int, j),
            decreases m - u,
        {
            if !self.slot(u).dead() {
                let g = match origin[u] {
                    Some(d) => inp.ghost_cand[c][d],
                    None => inp.ghost_track[c][u],
                };
                if g {
                    proof {
                        assert(ghost_of(self@, origin@, *inp, c as int, u as int));
                    }
                    return true;
                }
            }
            u += 1;
        }
        false
    }

    /// One step of the revive-or-spawn pass for candidate `c` (see
    /// `spawn_step`), keeping the facts `finish_frame` relies on.
    #[verifier::spinoff_prover]
    #[verifier::rlimit(40)]
    fn candidate_step(
        &mut self,
        origin: &mut Vec<Option<usize>>,
        c: usize,
        dists: &Vec<Vec<u32>>,
        inp: &SpawnInputs<P>,
        n0: usize,
        base: Ghost<nat>,
    ) -> (fate: Fate)
        requires
            c < inp.strong.len(),
            inputs_fit(*inp, dists@, n0 as nat, inp.strong@.len()),
            old(self)@.len() >= n0,
            old(self).created() == base@ + (old(self)@.len() - n0),
            old(self).created() + 1 < u32::MAX,
            old(origin).len() == old(self)@.len(),
            forall|j: int| 0 <= j < old(origin).len() && #[trigger] old(origin)@[j] is None ==> j < n0,
            forall|j: int| 0 <= j < old(origin).len() ==> (#[trigger] old(origin)@[j] matches Some(d) ==> d < inp.strong.len()),
            forall|j: int| 0 <= j < n0 ==> #[trigger] old(self)@[j].id <= base@,
            forall|j: int| n0 <= j < old(self)@.len() ==> {
                &&& #[trigger] old(self)@[j].id > base@
                &&& old(self)@[j].hits == 1
                &&& old(self)@[j].misses == 0
                &&& inp.spawn_states@.contains(old(self)@[j].state)
            },
        ensures
            (final(self)@, final(origin)@, final(self).created())
                == spawn_step((old(self)@, old(origin)@, old(self).created()), dists@, *inp, c),
            final(self)@.len() <= old(self)@.len() + 1,
            final(self)@.len() >= n0,
            final(self).created() == base@ + (final(self)@.len() - n0),
            final(origin).len() == final(self)@.len(),
            forall|j: int| 0 <= j < final(origin).len() && #[trigger] final(origin)@[j] is None ==> j < n0,
            forall|j: int| 0 <= j < final(origin).len() ==> (#[trigger] final(origin)@[j] matches Some(d) ==> d < inp.strong.len()),
            forall|j: int| 0 <= j < n0 ==> #[trigger] final(self)@[j].id <= base@,
            forall|j: int| 0 <= j < n0 ==> #[trigger] final(self)@[j].id == old(self)@[j].id,
            forall|j: int| n0 <= j < final(self)@.len() ==> {
                &&& #[trigger] final(self)@[j].id > base@
                &&& final(self)@[j].hits == 1
                &&& final(self)@[j].misses == 0
                &&& inp.spawn_states@.contains(final(self)@[j].state)
            },
            final(self)@.len() >= old(self)@.len(),
            fate == Fate::Weak <==> !inp.strong@[c as int],
            forall|j: int| 0 <= j < old(self)@.len() && !is_dead(#[trigger] old(self)@[j]) ==>
                !is_dead(final(self)@[j]) && final(origin)@[j] == old(origin)@[j],
            fate matches Fate::Revived(t) ==> t < final(self)@.len() && !is_dead(final(self)@[t as int])
                && final(origin)@[t as int] == Some(c),
            fate matches Fate::Spawned(id) ==> {
                &&& final(self)@.len() == old(self)@.len() + 1
                &&& !is_dead(final(self)@[old(self)@.len() as int])
                &&& final(origin)@[old(self)@.len() as int] == Some(c)
                &&& forall|j: int| 0 <= j < old(self)@.len() && !is_dead(#[trigger] old(self)@[j]) ==> match old(origin)@[j] {
                    Some(d) => !inp.ghost_cand@[c as int]@[d as int],
                    None => !inp.ghost_track@[c as int]@[j],
                }
            },
    {
        if !inp.strong[c] {
            return Fate::Weak;
        }
        match self.revival_target(&inp.ages, &dists[c], inp.revive_age, inp.revive_cents) {
            Some(t) => {
                let st = inp.revive_states[c][t];
                self.revive(t, st);
                origin.set(t, Some(c));
                Fate::Revived(t)
            },
            None => {
                let leaked = self.leaked_harmonic(origin, c, inp, n0);
                if !leaked {
                    proof {
                        assert forall|j: int| 0 <= j < self@.len() && !is_dead(#[trigger] self@[j]) implies match origin@[j] {
                            Some(d) => !inp.ghost_cand@[c as int]@[d as int],
                            None => !inp.ghost_track@[c as int]@[j],
                        } by {
                            assert(!ghost_of(self@, origin@, *inp, c as int, j));
                        }
                    }
                    let id = self.spawn(inp.spawn_states[c]);
                    origin.push(Some(c));
                    proof {
                        assert(inp.spawn_states@.contains(inp.spawn_states@[c as int]));
                    }
                    Fate::Spawned(id)
                } else {
                    Fate::Leaked
                }
            },
        }
    }

    /// Finishes a frame after association. Claimed tracks take a hit and
    /// their `hit_states` payload; unclaimed live tracks miss the frame and
    /// take their `faded` payload. Then each spawnable candidate in turn,
    /// if strong, revives the first revivable track or else, unless it is a
    /// leaked harmonic of a live track, starts a new one. Last, flukes and
    /// dead tracks flagged `expired` are dropped (new tracks never are).
    /// Tracks created in the frame have one hit, no miss and a spawn payload.
    pub fn finish_frame(
        &mut self,
        claimed: &Vec<bool>,
        hit_states: &Vec<P>,
        faded: &Vec<P>,
        spawnable: &Vec<usize>,
        dists: &Vec<Vec<u32>>,
        inp: &SpawnInputs<P>,
        expired: &Vec<bool>,
    ) -> (fates: Vec<Fate>)
        requires
            claimed.len() == old(self)@.len(),
            hit_states.len() == old(self)@.len(),
            faded.len() == old(self)@.len(),
            expired.len() == old(self)@.len(),
            forall|t: int| 0 <= t < old(self)@.len() && #[trigger] claimed@[t] ==> old(self)@[t].hits < u32::MAX,
            inputs_fit(*inp, dists@, old(self)@.len(), inp.strong@.len()),
            forall|k: int| 0 <= k < spawnable.len() ==> #[trigger] spawnable@[k] < inp.strong@.len(),
            old(self).created() + spawnable.len() < u32::MAX,
        ensures
            ({
                let fr = frame_tracks(old(self)@, old(self).created(), claimed@, hit_states@, faded@, spawnable@, dists@, *inp);
                &&& final(self)@ == survivors(fr.0, expired@ + Seq::new((fr.0.len() - old(self)@.len()) as nat, |k: int| false))
                &&& final(self).created() == fr.1
            }),
            final(self).created() >= old(self).created(),
            forall|k: int| 0 <= k < final(self)@.len() && #[trigger] final(self)@[k].id > old(self).created() ==> {
                &&& final(self)@[k].hits == 1
                &&& final(self)@[k].misses == 0
                &&& inp.spawn_states@.contains(final(self)@[k].state)
            },
            forall|k: int| 0 <= k < final(self)@.len() ==> !is_fluke(#[trigger] final(self)@[k]),
            forall|k: int| 0 <= k < final(self)@.len() && is_dead(#[trigger] final(self)@[k]) ==>
                exists|w: int| 0 <= w < old(self)@.len() && #[trigger] old(self)@[w].id == final(self)@[k].id && !expired@[w],
            bank_shape(final(self)@, final(self).created()),
            fates.len() == spawnable.len(),
            forall|j: int| 0 <= j < fates.len() ==> (#[trigger] fates@[j] == Fate::Weak <==> !inp.strong@[spawnable@[j] as int]),
            // a candidate never starts a track when it is a leaked harmonic
            // of the pitch an earlier candidate revived or started a track with
            forall|a: int, b: int| 0 <= a < b < fates.len() && #[trigger] fates@[b] is Spawned
                && (#[trigger] fates@[a] is Revived || fates@[a] is Spawned)
                ==> !inp.ghost_cand@[spawnable@[b] as int]@[spawnable@[a] as int],
            final(self).wf(),
    {
        proof {
            use_type_invariant(&*self);
        }
        let ghost old_view = self@;
        let ghost old_created = self.created();
        let n0 = self.len();
        let mut t: usize = 0;
        while t < n0
            invariant
                n0 == old_view.len(),
                self@.len() == n0,
                self.created() == old_created,
                claimed.len() == n0,
                hit_states.len() == n0,
                forall|k: int| 0 <= k < n0 && #[trigger] claimed@[k] ==> old_view[k].hits < u32::MAX,
                t <= n0,
                forall|k: int| 0 <= k < t ==> #[trigger] self@[k] == if claimed@[k] {
                    Slot { id: old_view[k].id, hits: (old_view[k].hits + 1) as u32, misses: 0, state: hit_states@[k] }
                } else {
                    old_view[k]
                },
                forall|k: int| t <= k < n0 ==> #[trigger] self@[k] == old_view[k],
            decreases n0 - t,
        {
            if claimed[t] {
                self.record_hit(t, hit_states[t]);
            }
            t += 1;
        }
        self.record_misses(claimed, faded);
        let ghost claims = Seq::new(old_view.len(), |t: int| after_claim(old_view[t], claimed@[t], hit_states@[t], faded@[t]));
        proof {
            assert(self@ =~= claims);
            use_type_invariant(&*self);
            assert forall|k: int| 0 <= k < n0 implies #[trigger] self@[k].id <= old_created by {
                assert(old_view[k].id == self@[k].id);
            }
        }
        let n_c = inp.strong.len();
        let mut origin: Vec<Option<usize>> = Vec::new();
        let mut k: usize = 0;
        while k < n0
            invariant
                k <= n0,
                origin.len() == k,
                forall|j: int| 0 <= j < k ==> #[trigger] origin@[j] is None,
            decreases n0 - k,
        {
            origin.push(None);
            k += 1;
        }
        proof {
            assert(origin@ =~= Seq::new(old_view.len(), |t: int| None::<usize>));
        }
        let ghost start = (claims, origin@, old_created);
        let mut fates: Vec<Fate> = Vec::new();
        let mut i: usize = 0;
        while i < spawnable.len()
            invariant
                fates.len() == i,
                forall|j: int| 0 <= j < i ==> (#[trigger] fates@[j] == Fate::Weak <==> !inp.strong@[spawnable@[j] as int]),
                forall|a: int| 0 <= a < i && (#[trigger] fates@[a] is Revived || fates@[a] is Spawned) ==>
                    exists|t: int| 0 <= t < self@.len() && #[trigger] origin@[t] == Some(spawnable@[a]) && !is_dead(self@[t]),
                forall|a: int, b: int| 0 <= a < b < i && #[trigger] fates@[b] is Spawned
                    && (#[trigger] fates@[a] is Revived || fates@[a] is Spawned)
                    ==> !inp.ghost_cand@[spawnable@[b] as int]@[spawnable@[a] as int],
                n0 == old_view.len(),
                n_c == inp.strong.len(),
                inputs_fit(*inp, dists@, n0 as nat, n_c as nat),
                forall|k: int| 0 <= k < spawnable.len() ==> #[trigger] spawnable@[k] < n_c,
                old_created + spawnable.len() < u32::MAX,
                i <= spawnable.len(),
                (self@, origin@, self.created()) == spawn_pass(start, dists@, *inp, spawnable@.take(i as int)),
                self@.len() >= n0,
                self@.len() <= n0 + i,
                self.created() == old_created + (self@.len() - n0),
                origin.len() == self@.len(),
                forall|j: int| 0 <= j < origin.len() && #[trigger] origin@[j] is None ==> j < n0,
                forall|j: int| 0 <= j < origin.len() ==> (#[trigger] origin@[j] matches Some(d) ==> d < n_c),
                forall|j: int| 0 <= j < n0 ==> #[trigger] self@[j].id <= old_created,
                forall|j: int| 0 <= j < n0 ==> #[trigger] self@[j].id == old_view[j].id,
                forall|j: int| n0 <= j < self@.len() ==> {
                    &&& #[trigger] self@[j].id > old_created
                    &&& self@[j].hits == 1
                    &&& self@[j].misses == 0
                    &&& inp.spawn_states@.contains(self@[j].state)
                },
            decreases spawnable.len() - i,
        {
            let c = spawnable[i];
            let ghost before = (self@, origin@, self.created());
            proof {
                assert(spawnable@.take(i + 1).drop_last() =~= spawnable@.take(i as int));
                assert(spawnable@.take(i + 1).last() == c);
            }
            let ghost pre_view = self@;
            let ghost pre_origin = origin@;
            let fate = self.candidate_step(&mut origin, c, dists, inp, n0, Ghost(old_created));
            let ghost pre_fates = fates@;
            fates.push(fate);
            proof {
                assert forall|a: int| 0 <= a < i + 1 && (#[trigger] fates@[a] is Revived || fates@[a] is Spawned) implies
                    exists|t: int| 0 <= t < self@.len() && #[trigger] origin@[t] == Some(spawnable@[a]) && !is_dead(self@[t]) by {
                    if a < i {
                        assert(pre_fates[a] == fates@[a]);
                        let t = choose|t: int| 0 <= t < pre_view.len() && #[trigger] pre_origin[t] == Some(spawnable@[a]) && !is_dead(pre_view[t]);
                        assert(origin@[t] == Some(spawnable@[a]) && !is_dead(self@[t]));
                    } else {
                        match fate {
                            Fate::Revived(t) => {
                                assert(origin@[t as int] == Some(spawnable@[a]));
                            },
                            _ => {
                                assert(origin@[pre_view.len() as int] == Some(spawnable@[a]));
                            },
                        }
                    }
                }
                assert forall|a: int, b: int| 0 <= a < b < i + 1 && #[trigger] fates@[b] is Spawned
                    && (#[trigger] fates@[a] is Revived || fates@[a] is Spawned)
                    implies !inp.ghost_cand@[spawnable@[b] as int]@[spawnable@[a] as int] by {
                    assert(pre_fates[a] == fates@[a]);
                    if b < i {
                        assert(pre_fates[b] == fates@[b]);
                    } else {
                        let t = choose|t: int| 0 <= t < pre_view.len() && #[trigger] pre_origin[t] == Some(spawnable@[a]) && !is_dead(pre_view[t]);
                        assert(!is_dead(pre_view[t]));
                    }
                }
            }
            proof {
                assert(spawn_pass(start, dists@, *inp, spawnable@.take(i + 1)) == spawn_step(before, dists@, *inp, c));
            }
            i += 1;
        }
        proof {
            assert(spawnable@.take(spawnable.len() as int) =~= spawnable@);
        }
        let ghost sp = self@;
        proof {
            assert forall|j: int| n0 <= j < sp.len() implies #[trigger] sp[j].misses == 0 by {
                assert(self@[j].id > old_created);
            }
            assert forall|j: int| 0 <= j < n0 implies #[trigger] sp[j].id == old_view[j].id by {
                assert(self@[j].id == old_view[j].id);
            }
        }
        let mut ex: Vec<bool> = Vec::new();
        let n1 = self.len();
        let mut j: usize = 0;
        while j < n1
            invariant
                n1 == self@.len(),
                n0 <= n1,
                expired.len() == n0,
                j <= n1,
                ex.len() == j,
                forall|q: int| 0 <= q < j ==> #[trigger] ex@[q] == if q < n0 { expired@[q] } else { false },
            decreases n1 - j,
        {
            if j < n0 {
                ex.push(expired[j]);
            } else {
                ex.push(false);
            }
            j += 1;
        }
        proof {
            assert(ex@ =~= expired@ + Seq::new((sp.len() - n0) as nat, |k: int| false));
            lemma_survivors(sp, ex@);
        }
        self.prune(&ex);
        proof {
            assert forall|k: int| 0 <= k < self@.len() && #[trigger] self@[k].id > old_created implies {
                &&& self@[k].hits == 1
                &&& self@[k].misses == 0
                &&& inp.spawn_states@.contains(self@[k].state)
            } by {
                assert(sp.contains(self@[k]));
                let w = choose|w: int| 0 <= w < sp.len() && sp[w] == self@[k];
                if w < n0 {
                    assert(sp[w].id <= old_created);
                }
            }
            assert forall|k: int| 0 <= k < self@.len() && is_dead(#[trigger] self@[k]) implies
                exists|w: int| 0 <= w < old_view.len() && #[trigger] old_view[w].id == self@[k].id && !expired@[w] by {
                assert(kept_at(sp, ex@, self@[k]));
                let w = choose|w: int| 0 <= w < sp.len() && #[trigger] sp[w] == self@[k] && survives(sp[w], ex@[w]);
                if w >= n0 {
                    assert(sp[w].misses == 0);
                }
                assert(w < n0);
                assert(ex@[w] == expired@[w]);
                assert(old_view[w].id == self@[k].id);
            }
            use_type_invariant(&*self);
        }
        fates
    }

}

} // verus!
