//! Rules of the harmonic-stack pitch estimator.

use vstd::prelude::*;

verus! {

/// Highest harmonic scored for a candidate fundamental.
pub const MAX_HARMONIC: usize = 10;
/// Most pitches reported per frame.
pub const MAX_CANDIDATES: usize = 10;
/// Harmonic numbers tried when seeding fundamentals from a peak.
pub const SEED_HARMONICS: usize = 5;

/// How many of the harmonics `1..found.len()` were matched (index 0 is not
/// a harmonic).
pub open spec fn harmonics_found(found: Seq<bool>) -> nat
    decreases found.len(),
{
    if found.len() <= 1 {
        0
    } else {
        harmonics_found(found.drop_last()) + if found.last() { 1nat } else { 0nat }
    }
}

/// A harmonic stack counts only when its fundamental was matched, or both
/// its second and third harmonics were, and at least two harmonics matched.
pub open spec fn plausible_stack(found: Seq<bool>) -> bool {
    (found[1] || (found[2] && found[3])) && harmonics_found(found) >= 2
}

/// Counting laws: at least one harmonic of `1..found.len()` is matched
/// exactly when some harmonic is, and at least two exactly when two
/// distinct harmonics are.
pub proof fn lemma_harmonics_found(found: Seq<bool>)
    ensures
        harmonics_found(found) >= 1 <==> exists|a: int| 1 <= a < found.len() && #[trigger] found[a],
        harmonics_found(found) >= 2 <==> exists|a: int, b: int| 1 <= a < b < found.len() && #[trigger] found[a] && #[trigger] found[b],
    decreases found.len(),
{
    if found.len() > 1 {
        let init = found.drop_last();
        lemma_harmonics_found(init);
        let n = found.len() - 1;
        if exists|a: int| 1 <= a < init.len() && #[trigger] init[a] {
            let a = choose|a: int| 1 <= a < init.len() && #[trigger] init[a];
            assert(found[a]);
        }
        if exists|a: int, b: int| 1 <= a < b < init.len() && #[trigger] init[a] && #[trigger] init[b] {
            let (a, b) = choose|a: int, b: int| 1 <= a < b < init.len() && #[trigger] init[a] && #[trigger] init[b];
            assert(found[a] && found[b]);
        }
        if exists|a: int| 1 <= a < found.len() && #[trigger] found[a] {
            let a = choose|a: int| 1 <= a < found.len() && #[trigger] found[a];
            if a < n {
                assert(init[a]);
            }
        }
        if exists|a: int, b: int| 1 <= a < b < found.len() && #[trigger] found[a] && #[trigger] found[b] {
            let (a, b) = choose|a: int, b: int| 1 <= a < b < found.len() && #[trigger] found[a] && #[trigger] found[b];
            if b < n {
                assert(init[a] && init[b]);
            } else {
                assert(init[a]);
            }
        }
        if found.last() && exists|a: int| 1 <= a < init.len() && #[trigger] init[a] {
            let a = choose|a: int| 1 <= a < init.len() && #[trigger] init[a];
            assert(found[a] && found[n]);
        }
    }
}

/// Monotonicity law: matching more harmonics never makes a plausible
/// stack implausible.
pub proof fn lemma_stack_monotone(a: Seq<bool>, b: Seq<bool>)
    requires
        a.len() == b.len(),
        a.len() == MAX_HARMONIC + 1,
        forall|h: int| 0 <= h < a.len() && #[trigger] a[h] ==> b[h],
        plausible_stack(a),
    ensures
        plausible_stack(b),
{
    lemma_harmonics_found(a);
    lemma_harmonics_found(b);
    let (x, y) = choose|x: int, y: int| 1 <= x < y < a.len() && #[trigger] a[x] && #[trigger] a[y];
    assert(b[x] && b[y]);
}

/// Whether the matched harmonics `found[1..=MAX_HARMONIC]` make a plausible
/// harmonic stack.
pub fn stack_is_plausible(found: &Vec<bool>) -> (r: bool)
    requires
        found.len() == MAX_HARMONIC + 1,
    ensures
        r == plausible_stack(found@),
        // plausible exactly when the fundamental, or both the second and
        // third harmonics, matched, and two distinct harmonics matched
        r <==> ((found@[1] || (found@[2] && found@[3]))
            && exists|a: int, b: int| 1 <= a < b <= MAX_HARMONIC && #[trigger] found@[a] && #[trigger] found@[b]),
        found@[1] && (exists|h: int| 2 <= h <= MAX_HARMONIC && #[trigger] found@[h]) ==> r,
        found@[2] && found@[3] ==> r,
{
    let mut count: usize = 0;
    let mut h: usize = 1;
    while h <= MAX_HARMONIC
        invariant
            found.len() == MAX_HARMONIC + 1,
            1 <= h <= MAX_HARMONIC + 1,
            count == harmonics_found(found@.take(h as int)),
            count < h,
        decreases MAX_HARMONIC + 1 - h,
    {
        proof {
            assert(found@.take(h + 1).drop_last() =~= found@.take(h as int));
        }
        if found[h] {
            count += 1;
        }
        h += 1;
    }
    proof {
        assert(found@.take(found.len() as int) =~= found@);
        lemma_harmonics_found(found@);
        if found@[1] && (exists|h: int| 2 <= h <= MAX_HARMONIC && #[trigger] found@[h]) {
            let h = choose|h: int| 2 <= h <= MAX_HARMONIC && #[trigger] found@[h];
            assert(found@[1] && found@[h]);
        }
        if found@[2] && found@[3] {
            assert(found@[2] && found@[3]);
        }
    }
    (found[1] || (found[2] && found[3])) && count >= 2
}

} // verus!
