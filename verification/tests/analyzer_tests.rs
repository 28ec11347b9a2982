use tunerfish::analyzer::{local_peaks, strongest_by_frequency, Framer, HOP, MAX_PEAKS, NWIN};

#[test]
fn first_frame_when_window_full_then_every_hop() {
    let mut f: Framer<u32> = Framer::new(0);
    let mut frames = Vec::new();
    for n in 1..=(NWIN + 3 * HOP + 5) {
        if f.feed(n as u32) {
            frames.push(n);
        }
    }
    assert_eq!(frames, vec![NWIN, NWIN + HOP, NWIN + 2 * HOP, NWIN + 3 * HOP]);
}

#[test]
fn window_is_padded_before_full() {
    let mut f: Framer<i32> = Framer::new(-1);
    for s in 1..=10 {
        assert!(!f.feed(s));
    }
    let w = f.window();
    assert_eq!(w.len(), NWIN);
    assert!(w[..NWIN - 10].iter().all(|&x| x == -1));
    assert_eq!(&w[NWIN - 10..], &[1, 2, 3, 4, 5, 6, 7, 8, 9, 10]);
}

#[test]
fn window_holds_last_samples_oldest_first() {
    let mut f: Framer<u32> = Framer::new(0);
    let total = NWIN + 1234;
    for s in 0..total {
        f.feed(s as u32);
    }
    let w = f.window();
    let expected: Vec<u32> = ((total - NWIN)..total).map(|s| s as u32).collect();
    assert_eq!(w, expected);
}

#[test]
fn local_peaks_finds_plateau_edges_and_threshold() {
    //            0  1  2  3  4  5  6  7  8  9 10 11 12 13 14 15
    let mags = vec![0, 0, 0, 1, 2, 9, 3, 2, 1, 5, 5, 1, 0, 0, 0, 0];
    // bin 5 is a peak; bin 9 ties with the bin above it and wins (>= above, > below);
    // bin 10 does not exceed bin 9 below it
    assert_eq!(local_peaks(&mags, 3, 12, 0), vec![5, 9]);
    assert_eq!(local_peaks(&mags, 3, 12, 6), vec![5]);
    assert_eq!(local_peaks(&mags, 6, 12, 0), vec![9]);
    assert_eq!(local_peaks(&mags, 12, 3, 0), Vec::<usize>::new());
}

#[test]
fn strongest_by_frequency_truncates_and_reorders() {
    let mags = vec![5, 9, 1, 9, 7];
    let freqs = vec![50, 40, 10, 30, 20];
    // strongest three: 1 and 3 (tie, 1 first), then 4; by frequency: 4, 3, 1
    assert_eq!(strongest_by_frequency(&mags, &freqs, 3), vec![4, 3, 1]);
    assert_eq!(strongest_by_frequency(&mags, &freqs, 10), vec![2, 4, 3, 1, 0]);
    assert_eq!(strongest_by_frequency(&mags, &freqs, 0), Vec::<usize>::new());
}

#[test]
fn strongest_by_frequency_equal_frequency_keeps_strength_order() {
    let mags = vec![1, 3, 2];
    let freqs = vec![7, 7, 7];
    assert_eq!(strongest_by_frequency(&mags, &freqs, MAX_PEAKS), vec![1, 2, 0]);
}
