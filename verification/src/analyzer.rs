//! Framing of the sample stream into overlapping analysis windows, and
//! selection of spectral peaks.

use vstd::prelude::*;
use crate::order::{precedes, stable_order, is_stable_order};

verus! {

/// Analysis window length, in samples.
pub const NWIN: usize = 8192;
/// FFT length (the window zero-padded to twice its length).
pub const NFFT: usize = 16384;
/// Samples between successive analysis frames.
pub const HOP: usize = 2048;
/// Most spectral peaks kept per frame.
pub const MAX_PEAKS: usize = 64;

/// The window seen after `hist` was fed to a ring prefilled with `fill`:
/// the last `NWIN` values of `NWIN` fill values followed by `hist`,
/// oldest first.
pub open spec fn window_of<T>(fill: T, hist: Seq<T>) -> Seq<T> {
    let padded = Seq::new(NWIN as nat, |i: int| fill) + hist;
    padded.subrange(hist.len() as int, padded.len() as int)
}

/// How many analysis frames `n` fed samples produce: the first once the
/// window is full, then one every `HOP` samples.
pub open spec fn frames_after(n: nat) -> nat {
    if n < NWIN {
        0
    } else {
        ((n - NWIN) as nat / HOP as nat) + 1
    }
}

/// Whether the `n`-th sample (counting from 1) completes an analysis frame.
pub open spec fn completes_frame(n: nat) -> bool {
    n >= NWIN && (n - NWIN) % (HOP as int) == 0
}

/// A ring of the last `NWIN` samples that reports when a new analysis frame
/// is due.
pub struct Framer<T> {
    ring: Vec<T>,
    wpos: usize,
    filled: usize,
    since_hop: usize,
    fill: Ghost<T>,
    fed: Ghost<Seq<T>>,
}

proof fn lemma_mod_step(n: int)
    requires
        n >= 0,
    ensures
        (n + 1) % (NWIN as int) == if n % (NWIN as int) + 1 == NWIN as int { 0 } else { n % (NWIN as int) + 1 },
        (n + NWIN as int) % (NWIN as int) == n % (NWIN as int),
{
    assert((n + 1) % 8192 == if n % 8192 + 1 == 8192 { 0 } else { n % 8192 + 1 }) by (nonlinear_arith)
        requires n >= 0;
    assert((n + 8192) % 8192 == n % 8192) by (nonlinear_arith)
        requires n >= 0;
}

proof fn lemma_frames_step(n: nat)
    ensures
        frames_after(n + 1) == frames_after(n) + if completes_frame(n + 1) { 1nat } else { 0nat },
{
    if n + 1 == NWIN {
    } else if n + 1 > NWIN {
        let m = (n - NWIN) as int;
        assert((m + 1) / 2048 == if (m + 1) % 2048 == 0 { m / 2048 + 1 } else { m / 2048 }) by (nonlinear_arith)
            requires m >= 0;
    }
}

/// How many of the sample counts `1..=n` complete a frame.
pub open spec fn completions(n: nat) -> nat
    decreases n,
{
    if n == 0 {
        0
    } else {
        completions((n - 1) as nat) + if completes_frame(n) { 1nat } else { 0nat }
    }
}

/// Framing laws: the frames reported over the first `n` samples number
/// `frames_after(n)`; the first comes with sample `NWIN`, and after each
/// frame the next one comes exactly `HOP` samples later.
pub proof fn lemma_framing(n: nat)
    ensures
        completions(n) == frames_after(n),
        completes_frame(NWIN as nat),
        forall|m: nat| 0 < m < NWIN ==> !#[trigger] completes_frame(m),
        completes_frame(n) ==> completes_frame(n + HOP as nat),
        completes_frame(n) ==> forall|j: nat| n < j < n + HOP ==> !#[trigger] completes_frame(j),
    decreases n,
{
    if n > 0 {
        lemma_framing((n - 1) as nat);
        lemma_frames_step((n - 1) as nat);
    }
    if completes_frame(n) {
        let m = n - NWIN;
        assert((m + 2048) % 2048 == m % 2048) by (nonlinear_arith)
            requires m >= 0;
        assert forall|j: nat| n < j < n + HOP implies !#[trigger] completes_frame(j) by {
            let d = j - n;
            assert((m + d) % 2048 != 0) by (nonlinear_arith)
                requires m >= 0, m % 2048 == 0, 0 < d < 2048;
        }
    }
}

impl<T: Copy> Framer<T> {
    /// Every sample fed so far, oldest first.
    pub closed spec fn samples(&self) -> Seq<T> {
        self.fed@
    }

    /// The value the ring held before any sample was fed.
    pub closed spec fn fill_value(&self) -> T {
        self.fill@
    }

    /// The ring holds the last `NWIN` samples (fill values where fewer were
    /// fed), and the counters agree with the number of samples fed.
    pub closed spec fn wf(&self) -> bool {
        let n = self.fed@.len() as int;
        let padded = Seq::new(NWIN as nat, |i: int| self.fill@) + self.fed@;
        &&& self.ring.len() == NWIN
        &&& self.wpos == n % (NWIN as int)
        &&& self.filled == if n < NWIN { n } else { NWIN as int }
        &&& self.since_hop == if n < NWIN { n } else { (n - NWIN) % (HOP as int) }
        &&& forall|p: int| n <= p < n + NWIN ==> #[trigger] self.ring@[p % (NWIN as int)] == padded[p]
    }

    /// An empty framer whose window starts out as `NWIN` copies of `fill`.
    pub fn new(fill: T) -> (f: Self)
        ensures
            f.wf(),
            f.samples() == Seq::<T>::empty(),
            f.fill_value() == fill,
    {
        let mut ring: Vec<T> = Vec::new();
        let mut i: usize = 0;
        while i < NWIN
            invariant
                i <= NWIN,
                ring.len() == i,
                forall|k: int| 0 <= k < i ==> #[trigger] ring@[k] == fill,
            decreases NWIN - i,
        {
            ring.push(fill);
            i += 1;
        }
        let f = Framer { ring, wpos: 0, filled: 0, since_hop: 0, fill: Ghost(fill), fed: Ghost(Seq::empty()) };
        proof {
            let padded = Seq::new(NWIN as nat, |i: int| fill) + Seq::<T>::empty();
            assert forall|p: int| 0 <= p < NWIN implies #[trigger] f.ring@[p % (NWIN as int)] == padded[p] by {
                assert(p % (NWIN as int) == p);
            }
        }
        f
    }

    /// Feeds one sample; returns whether it completes a new analysis frame.
    pub fn feed(&mut self, sample: T) -> (ready: bool)
        requires
            old(self).wf(),
        ensures
            final(self).wf(),
            final(self).samples() == old(self).samples().push(sample),
            final(self).fill_value() == old(self).fill_value(),
            ready == completes_frame(final(self).samples().len()),
            frames_after(final(self).samples().len()) == frames_after(old(self).samples().len())
                + if ready { 1nat } else { 0nat },
    {
        let ghost n = self.fed@.len() as int;
        let ghost old_ring = self.ring@;
        let ghost padded = Seq::new(NWIN as nat, |i: int| self.fill@) + self.fed@;
        self.ring.set(self.wpos, sample);
        proof {
            lemma_mod_step(n);
        }
        self.wpos = if self.wpos + 1 == NWIN { 0 } else { self.wpos + 1 };
        if self.filled < NWIN {
            self.filled = self.filled + 1;
        }
        self.since_hop = self.since_hop + 1;
        self.fed = Ghost(self.fed@.push(sample));
        proof {
            let padded2 = Seq::new(NWIN as nat, |i: int| self.fill@) + self.fed@;
            assert forall|p: int| n + 1 <= p < n + 1 + NWIN implies #[trigger] self.ring@[p % (NWIN as int)] == padded2[p] by {
                if p == n + NWIN {
                    lemma_mod_step(n);
                } else {
                    assert(padded2[p] == padded[p]);
                    assert(p % (NWIN as int) != n % (NWIN as int)) by (nonlinear_arith)
                        requires n < p < n + 8192;
                }
            }
            lemma_frames_step(n as nat);
        }
        if self.filled < NWIN || self.since_hop < HOP {
            proof {
                if n + 1 >= NWIN {
                    assert((n + 1 - 8192) % 2048 == if (n - 8192) % 2048 + 1 == 2048 { 0 } else { (n - 8192) % 2048 + 1 }) by (nonlinear_arith)
                        requires n >= 8192;
                }
            }
            return false;
        }
        self.since_hop = 0;
        proof {
            if n + 1 > NWIN {
                assert((n + 1 - 8192) % 2048 == if (n - 8192) % 2048 + 1 == 2048 { 0 } else { (n - 8192) % 2048 + 1 }) by (nonlinear_arith)
                    requires n >= 8192;
            }
        }
        true
    }

    /// The current analysis window, oldest sample first.
    pub fn window(&self) -> (w: Vec<T>)
        requires
            self.wf(),
        ensures
            w@ == window_of(self.fill_value(), self.samples()),
    {
        let ghost n = self.fed@.len() as int;
        let ghost padded = Seq::new(NWIN as nat, |i: int| self.fill@) + self.fed@;
        let mut w: Vec<T> = Vec::new();
        let mut i: usize = 0;
        while i < NWIN
            invariant
                self.wf(),
                n == self.fed@.len(),
                padded == Seq::new(NWIN as nat, |i: int| self.fill@) + self.fed@,
                i <= NWIN,
                w.len() == i,
                forall|k: int| 0 <= k < i ==> #[trigger] w@[k] == padded[n + k],
            decreases NWIN - i,
        {
            let idx = if self.wpos + i >= NWIN { self.wpos + i - NWIN } else { self.wpos + i };
            proof {
                assert(idx == (n + i) % (NWIN as int)) by (nonlinear_arith)
                    requires self.wpos == n % 8192, n >= 0, 0 <= i < 8192, idx == if self.wpos + i >= 8192 { self.wpos + i - 8192 } else { self.wpos + i };
                assert(self.ring@[(n + i) % (NWIN as int)] == padded[n + i]);
            }
            w.push(self.ring[idx]);
            i += 1;
        }
        proof {
            assert(w@ =~= window_of(self.fill@, self.fed@));
        }
        w
    }
}

/// Bin `i` is a spectral peak: its magnitude reaches `thresh`, is at least
/// that of each of the three bins above it and exceeds that of each of the
/// three bins below it.
pub open spec fn is_spectral_peak(mags: Seq<u32>, thresh: u32, i: int) -> bool {
    &&& mags[i] >= thresh
    &&& mags[i] >= mags[i + 1]
    &&& mags[i] >= mags[i + 2]
    &&& mags[i] >= mags[i + 3]
    &&& mags[i] > mags[i - 1]
    &&& mags[i] > mags[i - 2]
    &&& mags[i] > mags[i - 3]
}

/// The bins of `lo..=hi`, in increasing order, that are spectral peaks of
/// the magnitude keys `mags` at threshold `thresh`.
pub fn local_peaks(mags: &Vec<u32>, lo: usize, hi: usize, thresh: u32) -> (r: Vec<usize>)
    requires
        3 <= lo,
        hi + 3 < mags.len(),
    ensures
        forall|k: int| 0 <= k < r.len() ==> lo <= #[trigger] r[k] <= hi && is_spectral_peak(mags@, thresh, r[k] as int),
        forall|a: int, b: int| 0 <= a < b < r.len() ==> #[trigger] r[a] < #[trigger] r[b],
        forall|i: usize| lo <= i <= hi && is_spectral_peak(mags@, thresh, i as int) ==> #[trigger] r@.contains(i),
        // a reported bin reaches the threshold ...
        forall|k: int| 0 <= k < r.len() ==> mags@[#[trigger] r[k] as int] >= thresh,
        // ... exceeds each of the three bins below it ...
        forall|k: int, j: int| 0 <= k < r.len() && r[k] - 3 <= j < r[k] ==> #[trigger] mags@[j] < mags@[#[trigger] r[k] as int],
        // ... and is at least each of the three bins above it
        forall|k: int, j: int| 0 <= k < r.len() && r[k] < j <= r[k] + 3 ==> #[trigger] mags@[j] <= mags@[#[trigger] r[k] as int],
        // every bin of the range that so dominates its neighbours is reported
        forall|i: usize| lo <= i <= hi && mags@[i as int] >= thresh
            && (forall|j: int| i - 3 <= j < i ==> #[trigger] mags@[j] < mags@[i as int])
            && (forall|j: int| i < j <= i + 3 ==> #[trigger] mags@[j] <= mags@[i as int])
            ==> #[trigger] r@.contains(i),
{
    let mut r: Vec<usize> = Vec::new();
    if lo > hi {
        return r;
    }
    let mut i: usize = lo;
    while i <= hi
        invariant
            3 <= lo,
            hi + 3 < mags.len(),
            lo <= i <= hi + 1,
            forall|k: int| 0 <= k < r.len() ==> lo <= #[trigger] r[k] < i && is_spectral_peak(mags@, thresh, r[k] as int),
            forall|a: int, b: int| 0 <= a < b < r.len() ==> #[trigger] r[a] < #[trigger] r[b],
            forall|j: usize| lo <= j < i && is_spectral_peak(mags@, thresh, j as int) ==> #[trigger] r@.contains(j),
        decreases hi + 1 - i,
    {
        let m = mags[i];
        if m >= thresh && m >= mags[i + 1] && m >= mags[i + 2] && m >= mags[i + 3] && m > mags[i - 1]
            && m > mags[i - 2] && m > mags[i - 3] {
            let ghost old_r = r@;
            r.push(i);
            proof {
                assert(r@[old_r.len() as int] == i);
                assert forall|j: usize| lo <= j < i + 1 && is_spectral_peak(mags@, thresh, j as int) implies #[trigger] r@.contains(j) by {
                    if j < i {
                        assert(old_r.contains(j));
                        let w = choose|w: int| 0 <= w < old_r.len() && old_r[w] == j;
                        assert(r@[w] == j);
                    }
                }
            }
        }
        i += 1;
    }
    proof {
        assert forall|k: int| 0 <= k < r.len() implies mags@[#[trigger] r[k] as int] >= thresh by {
            assert(is_spectral_peak(mags@, thresh, r[k] as int));
        }
        assert forall|k: int, j: int| 0 <= k < r.len() && r[k] - 3 <= j < r[k] implies #[trigger] mags@[j] < mags@[#[trigger] r[k] as int] by {
            assert(is_spectral_peak(mags@, thresh, r[k] as int));
        }
        assert forall|k: int, j: int| 0 <= k < r.len() && r[k] < j <= r[k] + 3 implies #[trigger] mags@[j] <= mags@[#[trigger] r[k] as int] by {
            assert(is_spectral_peak(mags@, thresh, r[k] as int));
        }
        assert forall|i: usize| lo <= i <= hi && mags@[i as int] >= thresh
            && (forall|j: int| i - 3 <= j < i ==> #[trigger] mags@[j] < mags@[i as int])
            && (forall|j: int| i < j <= i + 3 ==> #[trigger] mags@[j] <= mags@[i as int])
            implies #[trigger] r@.contains(i) by {
            assert(mags@[i - 1] < mags@[i as int] && mags@[i - 2] < mags@[i as int] && mags@[i - 3] < mags@[i as int]);
            assert(mags@[i + 1] <= mags@[i as int] && mags@[i + 2] <= mags@[i as int] && mags@[i + 3] <= mags@[i as int]);
        }
    }
    r
}

/// The `max` strongest candidates (by magnitude key, ties to the earlier
/// candidate), listed by increasing frequency key; equal frequencies keep
/// the strength order.
pub open spec fn is_strongest_by_frequency(mags: Seq<u32>, freqs: Seq<u32>, max: nat, r: Seq<usize>) -> bool {
    &&& r.len() == if mags.len() < max { mags.len() } else { max }
    &&& forall|k: int| 0 <= k < r.len() ==> #[trigger] r[k] < mags.len()
    &&& forall|k: int, q: usize|
        #![trigger r[k], r.contains(q)]
        0 <= k < r.len() && q < mags.len() && !r.contains(q)
            ==> precedes(mags, true, r[k] as int, q as int)
    &&& forall|a: int, b: int|
        0 <= a < b < r.len() ==> {
            let fa = freqs[#[trigger] r[a] as int];
            let fb = freqs[#[trigger] r[b] as int];
            fa < fb || (fa == fb && precedes(mags, true, r[a] as int, r[b] as int))
        }
}

/// Keeps the `max` strongest candidates and orders them by frequency.
/// Candidate `k` has magnitude key `mags[k]` and frequency key `freqs[k]`;
/// the result lists candidate positions.
pub fn strongest_by_frequency(mags: &Vec<u32>, freqs: &Vec<u32>, max: usize) -> (r: Vec<usize>)
    requires
        mags.len() == freqs.len(),
    ensures
        is_strongest_by_frequency(mags@, freqs@, max as nat, r@),
{
    let n = mags.len();
    let by_strength = stable_order(mags, true);
    let m = if n < max { n } else { max };
    let mut top: Vec<usize> = Vec::new();
    let mut top_freqs: Vec<u32> = Vec::new();
    let mut i: usize = 0;
    while i < m
        invariant
            n == mags.len(),
            n == freqs.len(),
            m <= n,
            is_stable_order(mags@, true, by_strength@),
            i <= m,
            top.len() == i,
            top_freqs.len() == i,
            forall|k: int| 0 <= k < i ==> #[trigger] top@[k] == by_strength@[k],
            forall|k: int| 0 <= k < i ==> #[trigger] top_freqs@[k] == freqs@[top@[k] as int],
        decreases m - i,
    {
        let c = by_strength[i];
        top.push(c);
        top_freqs.push(freqs[c]);
        i += 1;
    }
    let by_freq = stable_order(&top_freqs, false);
    let mut r: Vec<usize> = Vec::new();
    let mut j: usize = 0;
    while j < m
        invariant
            n == mags.len(),
            m <= n,
            is_stable_order(mags@, true, by_strength@),
            is_stable_order(top_freqs@, false, by_freq@),
            top.len() == m,
            top_freqs.len() == m,
            forall|k: int| 0 <= k < m ==> #[trigger] top@[k] == by_strength@[k],
            forall|k: int| 0 <= k < m ==> #[trigger] top_freqs@[k] == freqs@[top@[k] as int],
            j <= m,
            r.len() == j,
            forall|k: int| 0 <= k < j ==> #[trigger] r@[k] == top@[by_freq@[k] as int],
        decreases m - j,
    {
        r.push(top[by_freq[j]]);
        j += 1;
    }
    proof {
        assert forall|k: int| 0 <= k < r.len() implies #[trigger] r@[k] < mags.len() by {
            assert(by_freq@[k] < m);
        }
        // every one of the strongest `m` candidates is listed
        assert forall|x: int| 0 <= x < m implies r@.contains(#[trigger] top@[x]) by {
            assert(by_freq@.contains(x as usize));
            let w = choose|w: int| 0 <= w < by_freq@.len() && by_freq@[w] == x as usize;
            assert(r@[w] == top@[x]);
        }
        assert forall|k: int, q: usize|
            #![trigger r@[k], r@.contains(q)]
            0 <= k < r.len() && q < mags.len() && !r@.contains(q)
                implies precedes(mags@, true, r@[k] as int, q as int) by {
            assert(by_strength@.contains(q));
            let w = choose|w: int| 0 <= w < by_strength@.len() && by_strength@[w] == q;
            if w < m {
                assert(r@.contains(top@[w]));
            }
            let y = by_freq@[k] as int;
            assert(r@[k] == by_strength@[y]);
            assert(y < m);
            assert(precedes(mags@, true, by_strength@[y] as int, by_strength@[w] as int));
        }
        assert forall|a: int, b: int| 0 <= a < b < r.len() implies {
            let fa = freqs@[#[trigger] r@[a] as int];
            let fb = freqs@[#[trigger] r@[b] as int];
            fa < fb || (fa == fb && precedes(mags@, true, r@[a] as int, r@[b] as int))
        } by {
            let x = by_freq@[a] as int;
            let y = by_freq@[b] as int;
            assert(precedes(top_freqs@, false, x, y));
            assert(top_freqs@[x] == freqs@[r@[a] as int]);
            assert(top_freqs@[y] == freqs@[r@[b] as int]);
            if top_freqs@[x] == top_freqs@[y] {
                assert(precedes(mags@, true, by_strength@[x] as int, by_strength@[y] as int));
            }
        }
    }
    r
}

} // verus!
