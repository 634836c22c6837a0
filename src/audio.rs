//! The layout of the log-mel feature grid: fitting audio to the analysis
//! window, cutting it into frames, and fixing the time axis of the result.
//! The arithmetic on sample values stands with the caller; these functions
//! are generic over the sample type.
use vstd::prelude::*;

verus! {

/// Sample rate that the model expects, in Hz.
pub const SAMPLE_RATE: usize = 16000;

/// Samples per analysis frame.
pub const N_FFT: usize = 400;

/// Samples between the starts of consecutive frames.
pub const HOP_LENGTH: usize = 160;

/// Seconds of audio in one analysis window.
pub const CHUNK_LENGTH: usize = 30;

/// Samples in one analysis window.
pub const N_SAMPLES: usize = 480000;

/// Mel bands of the feature grid.
pub const N_MELS: usize = 80;

/// Frequency bins kept from each frame's transform.
pub const N_FREQS: usize = 201;

/// Frames of the feature grid.
pub const TARGET_FRAMES: usize = 3000;

/// `v` cut or padded with `fill` to length `n`.
pub open spec fn fitted<T>(v: Seq<T>, n: nat, fill: T) -> Seq<T> {
    Seq::new(n, |i: int| if i < v.len() { v[i] } else { fill })
}

/// `v` cut to, or padded with `fill` up to, exactly `n` elements.
pub fn fit_length<T: Copy>(v: &[T], n: usize, fill: T) -> (r: Vec<T>)
    ensures
        r@ == fitted(v@, n as nat, fill),
{
    let mut r: Vec<T> = Vec::new();
    let mut i: usize = 0;
    while i < n
        invariant
            i <= n,
            r@ == fitted(v@, i as nat, fill),
        decreases n - i,
    {
        if i < v.len() {
            r.push(v[i]);
        } else {
            r.push(fill);
        }
        i = i + 1;
        assert(r@ =~= fitted(v@, i as nat, fill));
    }
    r
}

/// The audio fitted to the analysis window.
pub fn fit_to_window<T: Copy>(audio: &[T], silence: T) -> (r: Vec<T>)
    ensures
        r@ == fitted(audio@, N_SAMPLES as nat, silence),
        r@.len() == N_SAMPLES,
{
    fit_length(audio, N_SAMPLES, silence)
}

/// How many whole frames a signal of `len` samples holds.
pub open spec fn frames_in(len: nat) -> nat {
    if len < N_FFT {
        0
    } else {
        ((len - N_FFT) / (HOP_LENGTH as int) + 1) as nat
    }
}

/// Exec form of `frames_in`.
pub fn frame_count(len: usize) -> (r: usize)
    ensures
        r == frames_in(len as nat),
{
    if len < N_FFT {
        0
    } else {
        (len - N_FFT) / HOP_LENGTH + 1
    }
}

/// The frames of `audio`: frame `i` is the `N_FFT` samples from `i * HOP_LENGTH`.
pub fn frames_of<T: Copy>(audio: &[T]) -> (r: Vec<Vec<T>>)
    ensures
        r@.len() == frames_in(audio@.len()),
        forall|i: int| 0 <= i < r@.len() ==> #[trigger] r@[i]@ == audio@.subrange(
            i * HOP_LENGTH,
            i * HOP_LENGTH + N_FFT,
        ),
{
    let len = audio.len();
    let n = frame_count(len);
    let mut r: Vec<Vec<T>> = Vec::new();
    let mut i: usize = 0;
    while i < n
        invariant
            i <= n == frames_in(audio@.len()),
            len == audio@.len(),
            r@.len() == i,
            forall|k: int| 0 <= k < i ==> #[trigger] r@[k]@ == audio@.subrange(
                k * HOP_LENGTH,
                k * HOP_LENGTH + N_FFT,
            ),
        decreases n - i,
    {
        proof {
            assert(i * HOP_LENGTH + N_FFT <= audio@.len()) by (nonlinear_arith)
                requires
                    i < n,
                    n == (audio@.len() - N_FFT) / (HOP_LENGTH as int) + 1,
                    audio@.len() >= N_FFT,
            ;
            assert(i * HOP_LENGTH + N_FFT <= len);
        }
        let start = i * HOP_LENGTH;
        let mut frame: Vec<T> = Vec::new();
        let mut j: usize = 0;
        while j < N_FFT
            invariant
                j <= N_FFT,
                start == i * HOP_LENGTH,
                len == audio@.len(),
                start + N_FFT <= len,
                frame@ == audio@.subrange(start as int, start + j),
            decreases N_FFT - j,
        {
            frame.push(audio[start + j]);
            j = j + 1;
            assert(frame@ =~= audio@.subrange(start as int, start + j));
        }
        r.push(frame);
        i = i + 1;
    }
    r
}

/// Entry `(m, t)` of the arranged grid: band `m` of frame `t`, or `fill`
/// where the grid has no such frame or the frame no such band.
pub open spec fn grid_entry<T>(frames: Seq<Vec<T>>, m: int, t: int, fill: T) -> T {
    if t < frames.len() && m < frames[t]@.len() {
        frames[t]@[m]
    } else {
        fill
    }
}

/// Fixes the time axis of a grid of per-frame mel rows to `TARGET_FRAMES`
/// (cut, or padded with `fill`) and transposes it: row `m` of the result is
/// mel band `m` over time. Its shape is `N_MELS` by `TARGET_FRAMES` whatever
/// the number of frames or their lengths.
pub fn arrange_spectrogram<T: Copy>(frames: &Vec<Vec<T>>, fill: T) -> (r: Vec<Vec<T>>)
    ensures
        r@.len() == N_MELS,
        forall|m: int| 0 <= m < N_MELS ==> #[trigger] r@[m]@.len() == TARGET_FRAMES,
        forall|m: int, t: int| 0 <= m < N_MELS && 0 <= t < TARGET_FRAMES ==> #[trigger] r@[m]@[t]
            == grid_entry(frames@, m, t, fill),
{
    let mut r: Vec<Vec<T>> = Vec::new();
    let mut m: usize = 0;
    while m < N_MELS
        invariant
            m <= N_MELS,
            r@.len() == m,
            forall|k: int| 0 <= k < m ==> #[trigger] r@[k]@.len() == TARGET_FRAMES,
            forall|k: int, t: int| 0 <= k < m && 0 <= t < TARGET_FRAMES ==> #[trigger] r@[k]@[t]
                == grid_entry(frames@, k, t, fill),
        decreases N_MELS - m,
    {
        let mut row: Vec<T> = Vec::new();
        let mut t: usize = 0;
        while t < TARGET_FRAMES
            invariant
                t <= TARGET_FRAMES,
                m < N_MELS,
                row@.len() == t,
                forall|u: int| 0 <= u < t ==> #[trigger] row@[u] == grid_entry(frames@, m as int, u, fill),
            decreases TARGET_FRAMES - t,
        {
            if t < frames.len() && m < frames[t].len() {
                row.push(frames[t][m]);
            } else {
                row.push(fill);
            }
            t = t + 1;
        }
        r.push(row);
        m = m + 1;
    }
    r
}

} // verus!
