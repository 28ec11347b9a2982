//! Layout of the packed per-frame output.

use vstd::prelude::*;

verus! {

/// Most tracks written to one output frame.
pub const MAX_OUT_TRACKS: usize = 16;
/// Values written per track.
pub const OUT_STRIDE: usize = 6;
/// Values in the frame header.
pub const OUT_HEADER: usize = 4;
/// Length of one output frame.
pub const OUT_LEN: usize = OUT_HEADER + MAX_OUT_TRACKS * OUT_STRIDE;

/// How many of `n` track rows fit in one output frame.
pub open spec fn rows_packed_spec(n: nat) -> nat {
    if n < MAX_OUT_TRACKS {
        n
    } else {
        MAX_OUT_TRACKS as nat
    }
}

/// How many of `n` track rows fit in one output frame.
pub fn rows_packed(n: usize) -> (r: usize)
    ensures
        r == rows_packed_spec(n as nat),
{
    if n < MAX_OUT_TRACKS {
        n
    } else {
        MAX_OUT_TRACKS
    }
}

/// Writes the header, then the first `rows_packed(rows.len())` rows one
/// after another; the slots of rows not written keep their old values.
/// Returns the number of rows written.
pub fn pack_frame<T: Copy>(buf: &mut [T; OUT_LEN], header: [T; OUT_HEADER], rows: &Vec<[T; OUT_STRIDE]>) -> (n: usize)
    ensures
        n == rows_packed_spec(rows.len() as nat),
        forall|k: int| 0 <= k < OUT_HEADER ==> #[trigger] final(buf)@[k] == header@[k],
        forall|r: int, j: int|
            0 <= r < n && 0 <= j < OUT_STRIDE ==> #[trigger] final(buf)@[OUT_HEADER + r * OUT_STRIDE + j] == (#[trigger] rows@[r])@[j],
        forall|k: int| OUT_HEADER + n * OUT_STRIDE <= k < OUT_LEN ==> #[trigger] final(buf)@[k] == old(buf)@[k],
{
    let n = rows_packed(rows.len());
    let ghost orig = buf@;
    let mut r: usize = 0;
    while r < n
        invariant
            n == rows_packed_spec(rows.len() as nat),
            r <= n,
            buf@.len() == OUT_LEN,
            forall|k: int| OUT_HEADER + r * OUT_STRIDE <= k < OUT_LEN ==> #[trigger] buf@[k] == orig[k],
            forall|q: int, j: int|
                0 <= q < r && 0 <= j < OUT_STRIDE ==> #[trigger] buf@[OUT_HEADER + q * OUT_STRIDE + j] == (#[trigger] rows@[q])@[j],
        decreases n - r,
    {
        let row = rows[r];
        let base = OUT_HEADER + r * OUT_STRIDE;
        let mut j: usize = 0;
        while j < OUT_STRIDE
            invariant
                n == rows_packed_spec(rows.len() as nat),
                r < n,
                base == OUT_HEADER + r * OUT_STRIDE,
                row == rows@[r as int],
                j <= OUT_STRIDE,
                buf@.len() == OUT_LEN,
                forall|k: int| base + j <= k < OUT_LEN ==> #[trigger] buf@[k] == orig[k],
                forall|q: int, i: int|
                    0 <= q < r && 0 <= i < OUT_STRIDE ==> #[trigger] buf@[OUT_HEADER + q * OUT_STRIDE + i] == (#[trigger] rows@[q])@[i],
                forall|i: int| 0 <= i < j ==> #[trigger] buf@[base + i] == row@[i],
            decreases OUT_STRIDE - j,
        {
            buf[base + j] = row[j];
            j += 1;
        }
        r += 1;
    }
    let mut k: usize = 0;
    while k < OUT_HEADER
        invariant
            n == rows_packed_spec(rows.len() as nat),
            k <= OUT_HEADER,
            buf@.len() == OUT_LEN,
            forall|i: int| OUT_HEADER + n * OUT_STRIDE <= i < OUT_LEN ==> #[trigger] buf@[i] == orig[i],
            forall|q: int, j: int|
                0 <= q < n && 0 <= j < OUT_STRIDE ==> #[trigger] buf@[OUT_HEADER + q * OUT_STRIDE + j] == (#[trigger] rows@[q])@[j],
            forall|i: int| 0 <= i < k ==> #[trigger] buf@[i] == header@[i],
        decreases OUT_HEADER - k,
    {
        buf[k] = header[k];
        k += 1;
    }
    n
}

} // verus!
