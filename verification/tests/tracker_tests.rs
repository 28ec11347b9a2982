use tunerfish::tracker::{Bank, SpawnInputs, ACTIVATE_HITS, DEAD_MISSES};

fn bank_with(n: usize) -> Bank<u8> {
    let mut b = Bank::new();
    for k in 0..n {
        b.spawn(k as u8);
    }
    b
}

#[test]
fn spawn_hands_out_increasing_ids() {
    let mut b: Bank<u8> = Bank::new();
    assert_eq!(b.tracks_created(), 0);
    assert_eq!(b.spawn(7), 1);
    assert_eq!(b.spawn(8), 2);
    assert_eq!(b.tracks_created(), 2);
    let s = b.slot(1);
    assert_eq!((s.id, s.hits, s.misses, s.state), (2, 1, 0, 8));
    assert!(!s.counts_active());
}

#[test]
fn track_becomes_active_after_four_hits() {
    let mut b = bank_with(1);
    for _ in 1..ACTIVATE_HITS {
        assert!(!b.slot(0).counts_active());
        b.record_hit(0, 0);
    }
    assert!(b.slot(0).counts_active());
}

#[test]
fn misses_hide_then_kill_a_track() {
    let mut b = bank_with(1);
    b.revive(0, 1);
    assert!(b.slot(0).counts_active());
    for k in 1..=DEAD_MISSES + 3 {
        b.record_misses(&vec![false], &vec![9]);
        let s = b.slot(0);
        assert_eq!(s.misses, k.min(DEAD_MISSES + 1));
        assert_eq!(s.counts_active(), k <= 2);
        assert_eq!(s.dead(), k > DEAD_MISSES);
    }
}

#[test]
fn claimed_tracks_do_not_miss() {
    let mut b = bank_with(2);
    b.record_misses(&vec![true, false], &vec![5, 6]);
    assert_eq!((b.slot(0).misses, b.slot(0).state), (0, 0));
    assert_eq!((b.slot(1).misses, b.slot(1).state), (1, 6));
}

#[test]
fn prune_drops_flukes_and_expired_dead() {
    let mut b = bank_with(4);
    // track 0: fluke (one hit, then a miss)
    // track 1: established, then dead; expired
    // track 2: established, then dead; not expired
    // track 3: fresh, untouched
    for i in 1..3 {
        for _ in 0..3 {
            b.record_hit(i, 0);
        }
    }
    for _ in 0..=DEAD_MISSES {
        b.record_misses(&vec![false, false, false, true], &vec![0; 4]);
    }
    b.prune(&vec![false, true, false, false]);
    let ids: Vec<u32> = (0..b.len()).map(|i| b.slot(i).id).collect();
    assert_eq!(ids, vec![3, 4]);
    assert_eq!(b.tracks_created(), 4);
}

#[test]
fn associate_gates_then_reacquires() {
    let mut b = bank_with(3);
    // make tracks 1 and 2 established
    for i in 1..3 {
        for _ in 0..3 {
            b.record_hit(i, 0);
        }
    }
    // three candidates; candidate 2 is the most salient
    let sal = vec![5, 1, 9];
    let dists = vec![
        vec![100, 60, 300], // nearest is track 1, too far for a match
        vec![10, 300, 300], // close to track 0
        vec![40, 20, 30],   // nearest is track 1
    ];
    let a = b.associate(&sal, &dists, 50, 120);
    assert_eq!(a.order, vec![2, 0, 1]);
    assert_eq!(a.matched, vec![(2, 1), (1, 0)]);
    assert_eq!(a.reacquired, Vec::<(usize, usize)>::new());
    assert_eq!(a.spawnable, vec![0]);
    assert_eq!(a.claimed, vec![true, true, false]);
}

#[test]
fn associate_reacquires_established_track_only() {
    let mut b = bank_with(2);
    for _ in 0..3 {
        b.record_hit(1, 0);
    }
    let sal = vec![1];
    let dists = vec![vec![70, 90]];
    // nothing close enough for a match; track 0 is nearer but has one hit only
    let a = b.associate(&sal, &dists, 50, 120);
    assert_eq!(a.matched, Vec::<(usize, usize)>::new());
    assert_eq!(a.reacquired, vec![(0, 1)]);
    assert_eq!(a.spawnable, Vec::<usize>::new());
    assert_eq!(a.claimed, vec![false, true]);
}

#[test]
fn dead_tracks_take_no_candidate() {
    let mut b = bank_with(1);
    for _ in 0..=DEAD_MISSES {
        b.record_misses(&vec![false], &vec![0]);
    }
    assert!(b.slot(0).dead());
    let a = b.associate(&vec![3], &vec![vec![0]], 50, 120);
    assert_eq!(a.spawnable, vec![0]);
    assert_eq!(a.claimed, vec![false]);
}

fn plain_inputs(n_tracks: usize, n_cands: usize) -> SpawnInputs<u8> {
    SpawnInputs {
        strong: vec![true; n_cands],
        ages: vec![0; n_tracks],
        revive_age: 10,
        revive_cents: 50,
        ghost_track: vec![vec![false; n_tracks]; n_cands],
        ghost_cand: vec![vec![false; n_cands]; n_cands],
        revive_states: vec![vec![100; n_tracks]; n_cands],
        spawn_states: (0..n_cands).map(|c| 200 + c as u8).collect(),
    }
}

fn kill(b: &mut Bank<u8>, t: usize) {
    let n = b.len();
    let mut claimed = vec![true; n];
    claimed[t] = false;
    for _ in 0..=DEAD_MISSES {
        b.record_misses(&claimed, &vec![0; n]);
    }
}

#[test]
fn revival_target_is_first_dead_recent_near_track() {
    let mut b = bank_with(4);
    for t in 0..4 {
        for _ in 0..3 {
            b.record_hit(t, 0);
        }
    }
    kill(&mut b, 1);
    kill(&mut b, 2);
    kill(&mut b, 3);
    // track 1 too old, track 2 near and recent, track 3 also
    assert_eq!(b.revival_target(&vec![0, 20, 5, 5], &vec![0, 0, 10, 10], 10, 50), Some(2));
    // track 2 too far
    assert_eq!(b.revival_target(&vec![0, 20, 5, 5], &vec![0, 0, 60, 10], 10, 50), Some(3));
    // track 0 is alive, so never revived
    assert_eq!(b.revival_target(&vec![0, 20, 20, 20], &vec![0, 0, 60, 60], 10, 50), None);
}

#[test]
fn begin_frame_updates_live_tracks_only() {
    let mut b = bank_with(2);
    kill(&mut b, 1);
    b.begin_frame(&vec![7, 8]);
    assert_eq!(b.slot(0).state, 7);
    assert_eq!(b.slot(1).state, 0);
    assert_eq!(b.tracks_created(), 2);
}

#[test]
fn finish_frame_hits_misses_and_spawns() {
    let mut b = bank_with(2);
    let inp = plain_inputs(2, 2);
    // track 0 claimed; track 1 a fluke that misses; both candidates spawn
    b.finish_frame(&vec![true, false], &vec![5, 5], &vec![6, 6], &vec![1, 0], &vec![vec![99, 99]; 2], &inp, &vec![false, false]);
    let got: Vec<(u32, u32, u32, u8)> = (0..b.len()).map(|i| {
        let s = b.slot(i);
        (s.id, s.hits, s.misses, s.state)
    }).collect();
    assert_eq!(got, vec![(1, 2, 0, 5), (3, 1, 0, 201), (4, 1, 0, 200)]);
    assert_eq!(b.tracks_created(), 4);
}

#[test]
fn finish_frame_revives_instead_of_spawning() {
    let mut b = bank_with(1);
    for _ in 0..3 {
        b.record_hit(0, 0);
    }
    kill(&mut b, 0);
    let inp = plain_inputs(1, 1);
    b.finish_frame(&vec![false], &vec![0], &vec![0], &vec![0], &vec![vec![10]], &inp, &vec![true]);
    assert_eq!(b.len(), 1);
    let s = b.slot(0);
    assert_eq!((s.id, s.hits, s.misses, s.state), (1, ACTIVATE_HITS, 0, 100));
    assert!(s.counts_active());
    assert_eq!(b.tracks_created(), 1);
}

#[test]
fn finish_frame_skips_weak_and_leaked_candidates() {
    let mut b = bank_with(1);
    let mut inp = plain_inputs(1, 3);
    inp.strong = vec![false, true, true];
    // candidate 1 leaks from the live track; candidate 2 leaks from
    // candidate 1's pitch, but candidate 1 made no track
    inp.ghost_track = vec![vec![false], vec![true], vec![false]];
    inp.ghost_cand = vec![vec![false; 3], vec![false; 3], vec![false, true, false]];
    b.finish_frame(&vec![true], &vec![4], &vec![0], &vec![0, 1, 2], &vec![vec![99]; 3], &inp, &vec![false]);
    let ids: Vec<u32> = (0..b.len()).map(|i| b.slot(i).id).collect();
    assert_eq!(ids, vec![1, 2]);
    assert_eq!(b.slot(1).state, 202);
}

#[test]
fn finish_frame_leak_from_a_track_started_this_frame() {
    let mut b: Bank<u8> = Bank::new();
    let mut inp = plain_inputs(0, 2);
    inp.ghost_cand = vec![vec![false, false], vec![true, false]];
    b.finish_frame(&vec![], &vec![], &vec![], &vec![0, 1], &vec![vec![]; 2], &inp, &vec![]);
    assert_eq!(b.len(), 1);
    assert_eq!(b.slot(0).state, 200);
}

#[test]
fn finish_frame_drops_expired_dead_tracks() {
    let mut b = bank_with(2);
    for t in 0..2 {
        for _ in 0..3 {
            b.record_hit(t, 0);
        }
    }
    kill(&mut b, 0);
    kill(&mut b, 1);
    let mut inp = plain_inputs(2, 0);
    inp.revive_age = 0;
    b.finish_frame(&vec![false, false], &vec![0, 0], &vec![0, 0], &vec![], &vec![], &inp, &vec![true, false]);
    let ids: Vec<u32> = (0..b.len()).map(|i| b.slot(i).id).collect();
    assert_eq!(ids, vec![2]);
}
