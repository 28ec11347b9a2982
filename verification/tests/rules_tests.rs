use tunerfish::engine::{pack_frame, rows_packed, MAX_OUT_TRACKS, OUT_HEADER, OUT_LEN, OUT_STRIDE};
use tunerfish::pitch::{stack_is_plausible, MAX_HARMONIC};
use tunerfish::salience::best_peak;

fn found(hs: &[usize]) -> Vec<bool> {
    let mut f = vec![false; MAX_HARMONIC + 1];
    for &h in hs {
        f[h] = true;
    }
    f
}

#[test]
fn stack_needs_fundamental_or_second_and_third() {
    assert!(stack_is_plausible(&found(&[1, 4])));
    assert!(stack_is_plausible(&found(&[2, 3])));
    assert!(!stack_is_plausible(&found(&[2, 4, 5])));
    assert!(!stack_is_plausible(&found(&[3, 5, 7])));
}

#[test]
fn stack_needs_two_harmonics() {
    assert!(!stack_is_plausible(&found(&[1])));
    assert!(stack_is_plausible(&found(&[1, 10])));
    assert!(!stack_is_plausible(&found(&[])));
}

#[test]
fn best_peak_picks_highest_summit() {
    //              0  1  2  3  4  5  6  7  8  9
    let sal = vec![0, 0, 3, 1, 0, 8, 2, 1, 0, 0];
    assert_eq!(best_peak(&sal, 0), Some(5));
    assert_eq!(best_peak(&sal, 8), None);
    assert_eq!(best_peak(&sal, 7), Some(5));
}

#[test]
fn best_peak_first_of_equal_height() {
    let sal = vec![0, 0, 5, 0, 0, 0, 5, 0, 0];
    assert_eq!(best_peak(&sal, 0), Some(2));
}

#[test]
fn best_peak_ignores_edges_and_slopes() {
    assert_eq!(best_peak(&vec![9, 0, 0, 0, 9], 0), None);
    assert_eq!(best_peak(&vec![1, 2, 3, 4, 5, 6], 0), None);
    assert_eq!(best_peak(&vec![1, 1], 0), None);
}

#[test]
fn pack_frame_writes_header_and_rows() {
    let mut buf = [-1i32; OUT_LEN];
    let rows: Vec<[i32; OUT_STRIDE]> = (0..3).map(|r| [r * 10, r * 10 + 1, r * 10 + 2, r * 10 + 3, r * 10 + 4, r * 10 + 5]).collect();
    let n = pack_frame(&mut buf, [3, 100, 200, 300], &rows);
    assert_eq!(n, 3);
    assert_eq!(&buf[..OUT_HEADER], &[3, 100, 200, 300]);
    assert_eq!(&buf[OUT_HEADER + OUT_STRIDE..OUT_HEADER + 2 * OUT_STRIDE], &[10, 11, 12, 13, 14, 15]);
    assert!(buf[OUT_HEADER + 3 * OUT_STRIDE..].iter().all(|&x| x == -1));
}

#[test]
fn pack_frame_caps_rows() {
    let mut buf = [0u32; OUT_LEN];
    let rows: Vec<[u32; OUT_STRIDE]> = (0..20u32).map(|r| [r; OUT_STRIDE]).collect();
    let n = pack_frame(&mut buf, [16, 0, 0, 0], &rows);
    assert_eq!(n, MAX_OUT_TRACKS);
    assert_eq!(rows_packed(20), 16);
    assert_eq!(rows_packed(5), 5);
    assert_eq!(buf[OUT_LEN - 1], 15);
}
