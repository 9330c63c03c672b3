//! Overlapping fixed-size frames of a signal, and the window weighting that
//! prepares each frame for a short-time spectrum.
use vstd::prelude::*;

verus! {

/// Number of frames of `size` samples, advanced by `hop`, that fit in `len`
/// samples: `floor((len − size) / hop) + 1`, or none when one frame does not fit.
pub open spec fn frame_count(len: nat, size: nat, hop: nat) -> nat {
    if size > len {
        0
    } else {
        ((len - size) as nat / hop + 1) as nat
    }
}

/// Frame `i`: the samples `[i·hop, i·hop + size)`.
pub open spec fn frame<T>(signal: Seq<T>, size: nat, hop: nat, i: nat) -> Seq<T> {
    signal.subrange((i * hop) as int, (i * hop + size) as int)
}

/// A frame paired with window weights, the frame taken last sample first:
/// entry `m` is `w[m] · f[len(f) − 1 − m]`, for as many entries as both have.
pub open spec fn windowed(f: Seq<i32>, w: Seq<i32>) -> Seq<int> {
    let k = if w.len() <= f.len() {
        w.len()
    } else {
        f.len()
    };
    Seq::new(k, |m: int| w[m] as int * f[f.len() - 1 - m] as int)
}

/// Every frame that is counted lies inside the signal.
proof fn lemma_frame_in_bounds(len: nat, size: nat, hop: nat, i: nat)
    requires
        hop > 0,
        i < frame_count(len, size, hop),
    ensures
        i * hop + size <= len,
{
    let q = (len - size) as nat / hop;
    assert(i * hop <= (len - size) as nat) by (nonlinear_arith)
        requires
            hop > 0,
            i <= q,
            q == (len - size) as nat / hop,
            size <= len,
    ;
}

fn copy_range<T: Copy>(signal: &Vec<T>, start: usize, size: usize) -> (r: Vec<T>)
    requires
        start + size <= signal.len(),
    ensures
        r@ == signal@.subrange(start as int, start + size),
{
    let mut r: Vec<T> = Vec::new();
    let mut k: usize = 0;
    while k < size
        invariant
            k <= size,
            start + size <= signal.len(),
            r@ == signal@.subrange(start as int, start + k),
        decreases size - k,
    {
        r.push(signal[start + k]);
        k = k + 1;
        assert(r@ =~= signal@.subrange(start as int, start + k));
    }
    r
}

/// The frames of `size` samples that fit in `signal`, frame `i` starting at
/// sample `i·hop`; iteration stops once a full frame no longer fits.
pub fn windows<T: Copy>(signal: &Vec<T>, size: usize, hop: usize) -> (r: Vec<Vec<T>>)
    requires
        size > 0,
        hop > 0,
    ensures
        r@.len() == frame_count(signal@.len(), size as nat, hop as nat),
        forall|i: int|
            0 <= i < r@.len() ==> #[trigger] r@[i]@ == frame(signal@, size as nat, hop as nat, i as nat)
                && r@[i]@.len() == size,
{
    let count: usize = if size > signal.len() {
        0
    } else {
        (signal.len() - size) / hop + 1
    };
    let mut r: Vec<Vec<T>> = Vec::new();
    let mut i: usize = 0;
    while i < count
        invariant
            hop > 0,
            i <= count,
            count == frame_count(signal@.len(), size as nat, hop as nat),
            r@.len() == i,
            forall|j: int|
                0 <= j < i ==> #[trigger] r@[j]@ == frame(signal@, size as nat, hop as nat, j as nat)
                    && r@[j]@.len() == size,
        decreases count - i,
    {
        proof {
            lemma_frame_in_bounds(signal@.len(), size as nat, hop as nat, i as nat);
            assert(i * hop + size <= signal.len());
        }
        let start = i * hop;
        let f = copy_range(signal, start, size);
        r.push(f);
        i = i + 1;
    }
    r
}

/// Consecutive frames overlap in `size − hop` samples: what follows the first
/// `hop` samples of frame `i` is the start of frame `i + 1`.
pub proof fn lemma_consecutive_frames_overlap<T>(signal: Seq<T>, size: nat, hop: nat, i: nat)
    requires
        0 < hop < size,
        i + 1 < frame_count(signal.len(), size, hop),
    ensures
        frame(signal, size, hop, i).subrange(hop as int, size as int) == frame(
            signal,
            size,
            hop,
            i + 1,
        ).subrange(0, size - hop),
{
    lemma_frame_in_bounds(signal.len(), size, hop, i + 1);
    assert((i + 1) * hop == i * hop + hop) by (nonlinear_arith);
    assert(frame(signal, size, hop, i).subrange(hop as int, size as int) =~= frame(
        signal,
        size,
        hop,
        i + 1,
    ).subrange(0, size - hop));
}

/// Weights a frame for its transform: entry `m` is `weights[m]` times the
/// frame's sample `len − 1 − m`, for as many entries as both have.
pub fn apply_window(frame: &Vec<i32>, weights: &Vec<i32>) -> (r: Vec<i64>)
    ensures
        r@.len() == windowed(frame@, weights@).len(),
        forall|m: int| 0 <= m < r@.len() ==> #[trigger] r@[m] as int == windowed(frame@, weights@)[m],
{
    let k: usize = if weights.len() <= frame.len() {
        weights.len()
    } else {
        frame.len()
    };
    let mut r: Vec<i64> = Vec::new();
    let mut m: usize = 0;
    while m < k
        invariant
            m <= k,
            k == windowed(frame@, weights@).len(),
            k <= weights.len(),
            k <= frame.len(),
            r@.len() == m,
            forall|j: int| 0 <= j < m ==> #[trigger] r@[j] as int == windowed(frame@, weights@)[j],
        decreases k - m,
    {
        let w = weights[m] as i64;
        let s = frame[frame.len() - 1 - m] as i64;
        assert(-0x4000_0000_0000_0000 <= w * s <= 0x4000_0000_0000_0000) by (nonlinear_arith)
            requires
                -0x8000_0000 <= w <= 0x7fff_ffff,
                -0x8000_0000 <= s <= 0x7fff_ffff,
        ;
        r.push(w * s);
        m = m + 1;
    }
    r
}

/// The windowed frames of a short-time spectrum: the frames of `signal` as
/// long as `weights`, advanced by `hop`, each weighted by `apply_window`.
/// Their count is `floor((N − W) / hop) + 1`, or zero when `W > N`.
pub fn stft_frames(signal: &Vec<i32>, weights: &Vec<i32>, hop: usize) -> (r: Vec<Vec<i64>>)
    requires
        weights.len() > 0,
        hop > 0,
    ensures
        r@.len() == frame_count(signal@.len(), weights@.len(), hop as nat),
        forall|i: int|
            0 <= i < r@.len() ==> {
                let w = windowed(frame(signal@, weights@.len(), hop as nat, i as nat), weights@);
                &&& (#[trigger] r@[i])@.len() == w.len()
                &&& forall|m: int| 0 <= m < w.len() ==> #[trigger] r@[i]@[m] as int == w[m]
            },
{
    let frames = windows(signal, weights.len(), hop);
    let mut r: Vec<Vec<i64>> = Vec::new();
    let mut i: usize = 0;
    while i < frames.len()
        invariant
            i <= frames.len(),
            frames@.len() == frame_count(signal@.len(), weights@.len(), hop as nat),
            forall|j: int|
                0 <= j < frames@.len() ==> #[trigger] frames@[j]@ == frame(
                    signal@,
                    weights@.len(),
                    hop as nat,
                    j as nat,
                ),
            r@.len() == i,
            forall|j: int|
                0 <= j < i ==> {
                    let w = windowed(frame(signal@, weights@.len(), hop as nat, j as nat), weights@);
                    &&& (#[trigger] r@[j])@.len() == w.len()
                    &&& forall|m: int| 0 <= m < w.len() ==> #[trigger] r@[j]@[m] as int == w[m]
                },
        decreases frames.len() - i,
    {
        let row = apply_window(&frames[i], weights);
        r.push(row);
        i = i + 1;
    }
    r
}

/// `h` cut or extended with `fill` to exactly `n` entries: the impulse
/// response brought to the length of the transform it is multiplied with.
pub fn pad_to<T: Copy>(h: &Vec<T>, n: usize, fill: T) -> (r: Vec<T>)
    ensures
        r@.len() == n,
        forall|k: int| 0 <= k < n ==> #[trigger] r@[k] == if k < h@.len() {
            h@[k]
        } else {
            fill
        },
{
    let mut r: Vec<T> = Vec::new();
    let mut k: usize = 0;
    while k < n
        invariant
            k <= n,
            r@.len() == k,
            forall|j: int| 0 <= j < k ==> #[trigger] r@[j] == if j < h@.len() {
                h@[j]
            } else {
                fill
            },
        decreases n - k,
    {
        if k < h.len() {
            r.push(h[k]);
        } else {
            r.push(fill);
        }
        k = k + 1;
    }
    r
}

} // verus!
