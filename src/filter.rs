//! Causal linear time-invariant filters with zero initial conditions.
//!
//! Samples and coefficients are 32-bit integers (a fixed-point format chosen
//! by the caller); outputs are exact 128-bit sums.
use vstd::prelude::*;

use crate::DspError;

use itertools::Itertools;

verus! {

/// Largest magnitude of a product of two 32-bit integers.
pub open spec fn product_bound() -> int {
    0x4000_0000_0000_0000
}

pub open spec fn in_i128(v: int) -> bool {
    i128::MIN <= v <= i128::MAX
}

/// The samples of a buffer as mathematical integers.
pub open spec fn widen(v: Seq<i128>) -> Seq<int> {
    v.map_values(|e: i128| e as int)
}

/// A filter result with its samples as mathematical integers.
pub open spec fn result_view(r: Result<Vec<i128>, DspError>) -> Result<Seq<int>, DspError> {
    match r {
        Ok(v) => Ok(widen(v@)),
        Err(e) => Err(e),
    }
}

/// Input sample `k`; every index before the start or past the end reads as zero.
pub open spec fn sample_at(x: Seq<i32>, k: int) -> int {
    if 0 <= k < x.len() {
        x[k] as int
    } else {
        0
    }
}

/// Output sample `k`; every index before the start reads as zero.
pub open spec fn output_at(y: Seq<int>, k: int) -> int {
    if 0 <= k < y.len() {
        y[k]
    } else {
        0
    }
}

/// `h[0]·x[n] + h[1]·x[n-1] + ... + h[j-1]·x[n-j+1]`.
pub open spec fn fir_partial(h: Seq<i32>, x: Seq<i32>, n: int, j: nat) -> int
    decreases j,
{
    if j == 0 {
        0
    } else {
        fir_partial(h, x, n, (j - 1) as nat) + h[j - 1] as int * sample_at(x, n - (j - 1))
    }
}

/// Output `n` of the convolution sum `y[n] = Σ_k h[k]·x[n-k]`.
pub open spec fn fir_output(h: Seq<i32>, x: Seq<i32>, n: int) -> int {
    fir_partial(h, x, n, h.len())
}

/// The convolution sum of `h` with `x`, one output per input sample.
pub open spec fn convolution(h: Seq<i32>, x: Seq<i32>) -> Seq<int> {
    Seq::new(x.len(), |n: int| fir_output(h, x, n))
}

/// `a[0]·y[n-1] + a[1]·y[n-2] + ... + a[j-1]·y[n-j]`: entry `i` of the
/// feedback table has a delay of `i + 1` samples.
pub open spec fn feedback_partial(a: Seq<i32>, y: Seq<int>, n: int, j: nat) -> int
    decreases j,
{
    if j == 0 {
        0
    } else {
        feedback_partial(a, y, n, (j - 1) as nat) + a[j - 1] as int * output_at(y, n - j)
    }
}

/// The first `m` outputs of `y[n] = Σ b[i]·x[n-i] − Σ a[i]·y[n-1-i]`.
pub open spec fn direct_form_outputs(b: Seq<i32>, a: Seq<i32>, x: Seq<i32>, m: nat) -> Seq<int>
    decreases m,
{
    if m == 0 {
        Seq::empty()
    } else {
        let prev = direct_form_outputs(b, a, x, (m - 1) as nat);
        prev.push(fir_output(b, x, m - 1) - feedback_partial(a, prev, m - 1, a.len()))
    }
}

/// Feedback term `i` of output `n`, and the feedback sum up to it, fit in 128 bits.
pub open spec fn feedback_term_fits(a: Seq<i32>, prev: Seq<int>, n: int, i: int) -> bool {
    &&& in_i128(a[i] as int * output_at(prev, n - 1 - i))
    &&& in_i128(feedback_partial(a, prev, n, (i + 1) as nat))
}

/// Every intermediate of output `n`, given the outputs `prev` before it,
/// fits in 128 bits: each feedback product, each running feedback sum, and
/// the output itself.
pub open spec fn step_fits_after(b: Seq<i32>, a: Seq<i32>, x: Seq<i32>, prev: Seq<int>, n: int) -> bool {
    &&& forall|i: int| 0 <= i < a.len() ==> #[trigger] feedback_term_fits(a, prev, n, i)
    &&& in_i128(fir_output(b, x, n) - feedback_partial(a, prev, n, a.len()))
}

/// Every intermediate of output `n` of the filter fits in 128 bits.
pub open spec fn step_fits(b: Seq<i32>, a: Seq<i32>, x: Seq<i32>, n: int) -> bool {
    step_fits_after(b, a, x, direct_form_outputs(b, a, x, n as nat), n)
}

pub open spec fn direct_form_fits(b: Seq<i32>, a: Seq<i32>, x: Seq<i32>) -> bool {
    forall|n: int| 0 <= n < x.len() ==> #[trigger] step_fits(b, a, x, n)
}

/// What the direct-form filter returns for coefficient tables `b`, `a` and input `x`.
pub open spec fn direct_form_result(b: Seq<i32>, a: Seq<i32>, x: Seq<i32>) -> Result<
    Seq<int>,
    DspError,
> {
    if b.len() == 0 {
        Err(DspError::EmptyCoefficients)
    } else if x.len() == 0 {
        Err(DspError::EmptySignal)
    } else if !direct_form_fits(b, a, x) {
        Err(DspError::Overflow)
    } else {
        Ok(direct_form_outputs(b, a, x, x.len()))
    }
}

proof fn lemma_product_bound(p: i32, q: i32)
    ensures
        -product_bound() <= p as int * q as int <= product_bound(),
{
    assert(-0x4000_0000_0000_0000 <= p as int * q as int <= 0x4000_0000_0000_0000)
        by (nonlinear_arith)
        requires
            -0x8000_0000 <= p <= 0x7fff_ffff,
            -0x8000_0000 <= q <= 0x7fff_ffff,
    ;
}

proof fn lemma_fir_partial_bound(h: Seq<i32>, x: Seq<i32>, n: int, j: nat)
    requires
        j <= h.len(),
    ensures
        -(j * product_bound()) <= fir_partial(h, x, n, j) <= j * product_bound(),
    decreases j,
{
    if j > 0 {
        lemma_fir_partial_bound(h, x, n, (j - 1) as nat);
        let s = sample_at(x, n - (j - 1));
        if 0 <= n - (j - 1) < x.len() {
            lemma_product_bound(h[j - 1], x[n - (j - 1)]);
        }
        assert(-product_bound() <= h[j - 1] as int * s <= product_bound());
    }
}

proof fn lemma_times_zero(c: int, s: int)
    requires
        s == 0,
    ensures
        c * s == 0,
{
    assert(c * s == 0) by (nonlinear_arith)
        requires
            s == 0,
    ;
}

/// Output `n` of the convolution of `h` with `x`.
fn fir_at(h: &Vec<i32>, x: &Vec<i32>, n: usize) -> (r: i128)
    requires
        n < x.len(),
    ensures
        r == fir_output(h@, x@, n as int),
{
    let mut acc: i128 = 0;
    let mut k: usize = 0;
    while k < h.len()
        invariant
            k <= h.len(),
            n < x.len(),
            acc == fir_partial(h@, x@, n as int, k as nat),
        decreases h.len() - k,
    {
        proof {
            lemma_fir_partial_bound(h@, x@, n as int, k as nat);
            lemma_fir_partial_bound(h@, x@, n as int, (k + 1) as nat);
            assert(fir_partial(h@, x@, n as int, (k + 1) as nat) == fir_partial(
                h@,
                x@,
                n as int,
                k as nat,
            ) + h@[k as int] as int * sample_at(x@, n as int - k as int));
        }
        if k <= n {
            proof {
                lemma_product_bound(h@[k as int], x@[n - k]);
            }
            let p: i64 = (h[k] as i64) * (x[n - k] as i64);
            assert(p == h@[k as int] as int * sample_at(x@, n as int - k as int));
            acc = acc + p as i128;
        } else {
            proof {
                lemma_times_zero(h@[k as int] as int, sample_at(x@, n as int - k as int));
            }
        }
        k = k + 1;
    }
    acc
}

/// Convolution sum `y[n] = Σ_{k=0}^{min(n+1,K)-1} h[k]·x[n-k]` of an impulse
/// response `h` of length `K` with the input `x`; inputs before the start
/// read as zero. Exact: the sums cannot overflow.
pub fn convolution_sum(h: &Vec<i32>, x: &Vec<i32>) -> (y: Vec<i128>)
    ensures
        y@.len() == x@.len(),
        widen(y@) == convolution(h@, x@),
{
    let mut y: Vec<i128> = Vec::new();
    let mut n: usize = 0;
    while n < x.len()
        invariant
            n <= x.len(),
            y@.len() == n,
            forall|m: int| 0 <= m < n ==> #[trigger] y@[m] as int == fir_output(h@, x@, m),
        decreases x.len() - n,
    {
        let v = fir_at(h, x, n);
        y.push(v);
        n = n + 1;
    }
    assert(widen(y@) =~= convolution(h@, x@));
    y
}

/// The feedback sum `Σ_i a[i]·y[n-1-i]` of output `n = y.len()`, absent
/// when a product or a running sum does not fit in 128 bits.
fn feedback_sum(a: &Vec<i32>, y: &Vec<i128>) -> (r: Option<i128>)
    ensures
        r is Some <==> forall|i: int|
            0 <= i < a.len() ==> #[trigger] feedback_term_fits(a@, widen(y@), y.len() as int, i),
        r matches Some(v) ==> v == feedback_partial(a@, widen(y@), y.len() as int, a@.len()),
{
    let n = y.len();
    let ghost prev = widen(y@);
    let mut fb: i128 = 0;
    let mut i: usize = 0;
    while i < a.len()
        invariant
            i <= a.len(),
            n == y.len(),
            prev == widen(y@),
            fb == feedback_partial(a@, prev, n as int, i as nat),
            forall|j: int| 0 <= j < i ==> #[trigger] feedback_term_fits(a@, prev, n as int, j),
        decreases a.len() - i,
    {
        let ghost term = a@[i as int] as int * output_at(prev, n - 1 - i);
        assert(feedback_partial(a@, prev, n as int, (i + 1) as nat) == fb + term);
        if i < n {
            let yk = y[n - 1 - i];
            assert(yk as int == output_at(prev, n - 1 - i));
            match (a[i] as i128).checked_mul(yk) {
                None => {
                    assert(!feedback_term_fits(a@, prev, n as int, i as int));
                    return None;
                },
                Some(p) => {
                    match fb.checked_add(p) {
                        None => {
                            assert(!feedback_term_fits(a@, prev, n as int, i as int));
                            return None;
                        },
                        Some(s) => {
                            fb = s;
                        },
                    }
                },
            }
        } else {
            proof {
                lemma_times_zero(a@[i as int] as int, output_at(prev, n - 1 - i));
            }
        }
        assert(feedback_term_fits(a@, prev, n as int, i as int));
        i = i + 1;
    }
    Some(fb)
}

/// Output `n = y.len()` of the direct-form filter, given the outputs before
/// it; absent when an intermediate does not fit in 128 bits.
fn direct_form_step(b: &Vec<i32>, a: &Vec<i32>, x: &Vec<i32>, y: &Vec<i128>) -> (r: Option<i128>)
    requires
        y.len() < x.len(),
    ensures
        r is Some <==> step_fits_after(b@, a@, x@, widen(y@), y.len() as int),
        r matches Some(v) ==> v == fir_output(b@, x@, y.len() as int) - feedback_partial(
            a@,
            widen(y@),
            y.len() as int,
            a@.len(),
        ),
{
    let ff = fir_at(b, x, y.len());
    match feedback_sum(a, y) {
        None => None,
        Some(fb) => ff.checked_sub(fb),
    }
}

/// Simulates the causal system
/// `y[n] = Σ_{i=0}^{M-1} b[i]·x[n-i] − Σ_{i=0}^{L-1} a[i]·y[n-1-i]`
/// for `n = 0..N-1`, in increasing `n`, with zero initial conditions.
///
/// `a` holds the feedback coefficients from a delay of one sample on; the
/// leading coefficient of the output is one and is not stored. For each
/// output the feedforward terms are summed first, then the feedback terms in
/// increasing delay, then the two are combined.
///
/// Fails with `EmptyCoefficients` when `b` is empty, with `EmptySignal` when
/// `x` is empty, and with `Overflow` when a feedback product, a feedback sum
/// or an output does not fit in 128 bits.
pub fn filter_direct_form(b: &Vec<i32>, a: &Vec<i32>, x: &Vec<i32>) -> (r: Result<
    Vec<i128>,
    DspError,
>)
    ensures
        result_view(r) == direct_form_result(b@, a@, x@),
{
    if b.len() == 0 {
        return Err(DspError::EmptyCoefficients);
    }
    if x.len() == 0 {
        return Err(DspError::EmptySignal);
    }
    let mut y: Vec<i128> = Vec::new();
    let mut n: usize = 0;
    while n < x.len()
        invariant
            n <= x.len(),
            b.len() > 0,
            widen(y@) == direct_form_outputs(b@, a@, x@, n as nat),
            forall|m: int| 0 <= m < n ==> #[trigger] step_fits(b@, a@, x@, m),
        decreases x.len() - n,
    {
        let ghost prev = direct_form_outputs(b@, a@, x@, n as nat);
        assert(prev == direct_form_outputs(b@, a@, x@, (n as int) as nat));
        assert(y@.len() == n) by {
            assert(widen(y@).len() == y@.len());
            lemma_direct_form_len(b@, a@, x@, n as nat);
        }
        match direct_form_step(b, a, x, &y) {
            None => {
                assert(!step_fits(b@, a@, x@, n as int));
                return Err(DspError::Overflow);
            },
            Some(v) => {
                assert(step_fits(b@, a@, x@, n as int));
                y.push(v);
                assert(widen(y@) =~= prev.push(v as int));
            },
        }
        n = n + 1;
    }
    Ok(y)
}

proof fn lemma_direct_form_len(b: Seq<i32>, a: Seq<i32>, x: Seq<i32>, m: nat)
    ensures
        direct_form_outputs(b, a, x, m).len() == m,
    decreases m,
{
    if m > 0 {
        lemma_direct_form_len(b, a, x, (m - 1) as nat);
    }
}

proof fn lemma_outputs_without_feedback(b: Seq<i32>, x: Seq<i32>, m: nat)
    ensures
        direct_form_outputs(b, Seq::empty(), x, m) =~= Seq::new(m, |n: int| fir_output(b, x, n)),
    decreases m,
{
    if m > 0 {
        lemma_outputs_without_feedback(b, x, (m - 1) as nat);
    }
}

/// A filter with no feedback coefficients computes exactly the convolution
/// sum of its feedforward coefficients with the input, and never overflows.
pub proof fn lemma_feedforward_filter_is_convolution(b: Seq<i32>, x: Seq<i32>)
    requires
        b.len() > 0,
        x.len() > 0,
        b.len() <= usize::MAX,
    ensures
        direct_form_result(b, Seq::empty(), x) == Ok::<Seq<int>, DspError>(convolution(b, x)),
{
    let a = Seq::<i32>::empty();
    assert forall|n: int| 0 <= n < x.len() implies #[trigger] step_fits(b, a, x, n) by {
        let prev = direct_form_outputs(b, a, x, n as nat);
        assert(feedback_partial(a, prev, n, 0) == 0);
        lemma_fir_partial_bound(b, x, n, b.len());
        assert(b.len() * product_bound() <= usize::MAX * product_bound());
    }
    lemma_outputs_without_feedback(b, x, x.len());
    assert(direct_form_outputs(b, a, x, x.len()) =~= convolution(b, x));
}

proof fn lemma_fir_partial_prefix(h: Seq<i32>, x: Seq<i32>, s: i32, n: int, j: nat)
    requires
        n < x.len(),
    ensures
        fir_partial(h, x.push(s), n, j) == fir_partial(h, x, n, j),
    decreases j,
{
    if j > 0 {
        lemma_fir_partial_prefix(h, x, s, n, (j - 1) as nat);
        assert(sample_at(x.push(s), n - (j - 1)) == sample_at(x, n - (j - 1)));
    }
}

/// The outputs up to `m` depend on the inputs up to `m` alone.
proof fn lemma_outputs_prefix(b: Seq<i32>, a: Seq<i32>, x: Seq<i32>, s: i32, m: nat)
    requires
        m <= x.len(),
    ensures
        direct_form_outputs(b, a, x.push(s), m) == direct_form_outputs(b, a, x, m),
    decreases m,
{
    if m > 0 {
        lemma_outputs_prefix(b, a, x, s, (m - 1) as nat);
        lemma_fir_partial_prefix(b, x, s, m - 1, b.len());
    }
}

/// A direct-form filter run one sample at a time. It keeps the inputs and
/// outputs seen so far, and each step computes the next output exactly as
/// `filter_direct_form` computes it over the whole buffer.
pub struct DirectFormFilter {
    b: Vec<i32>,
    a: Vec<i32>,
    inputs: Vec<i32>,
    outputs: Vec<i128>,
}

impl DirectFormFilter {
    /// The feedforward coefficients.
    pub closed spec fn feedforward(&self) -> Seq<i32> {
        self.b@
    }

    /// The feedback coefficients, from a delay of one sample on.
    pub closed spec fn feedback(&self) -> Seq<i32> {
        self.a@
    }

    /// The input samples taken so far.
    pub closed spec fn inputs(&self) -> Seq<i32> {
        self.inputs@
    }

    /// The outputs produced so far, as mathematical integers.
    pub closed spec fn outputs(&self) -> Seq<int> {
        widen(self.outputs@)
    }

    /// The outputs are those of the filter on the inputs taken so far.
    pub closed spec fn wf(&self) -> bool {
        &&& self.b@.len() > 0
        &&& self.outputs@.len() == self.inputs@.len()
        &&& widen(self.outputs@) == direct_form_outputs(
            self.b@,
            self.a@,
            self.inputs@,
            self.inputs@.len(),
        )
    }

    /// The outputs so far are those of `filter_direct_form` on the inputs so far.
    pub open spec fn agrees_with_block(&self) -> bool {
        self.outputs() == direct_form_outputs(
            self.feedforward(),
            self.feedback(),
            self.inputs(),
            self.inputs().len(),
        )
    }

    /// A filter at rest, with zero initial conditions; `EmptyCoefficients`
    /// when `b` is empty.
    pub fn new(b: Vec<i32>, a: Vec<i32>) -> (r: Result<Self, DspError>)
        ensures
            r is Err <==> b@.len() == 0,
            r matches Err(e) ==> e == DspError::EmptyCoefficients,
            r matches Ok(f) ==> f.wf() && f.agrees_with_block() && f.feedforward() == b@
                && f.feedback() == a@ && f.inputs() == Seq::<i32>::empty(),
    {
        if b.len() == 0 {
            return Err(DspError::EmptyCoefficients);
        }
        let f = DirectFormFilter { b, a, inputs: Vec::new(), outputs: Vec::new() };
        assert(widen(f.outputs@) =~= Seq::<int>::empty());
        Ok(f)
    }

    /// Takes the next input sample and returns the next output. On
    /// `Overflow` the filter is left as it was.
    pub fn step(&mut self, sample: i32) -> (r: Result<i128, DspError>)
        requires
            old(self).wf(),
        ensures
            final(self).wf(),
            final(self).agrees_with_block(),
            final(self).feedforward() == old(self).feedforward(),
            final(self).feedback() == old(self).feedback(),
            r is Ok <==> step_fits(
                old(self).feedforward(),
                old(self).feedback(),
                old(self).inputs().push(sample),
                old(self).inputs().len() as int,
            ),
            r matches Ok(v) ==> final(self).inputs() == old(self).inputs().push(sample)
                && v == final(self).outputs().last(),
            r matches Err(e) ==> e == DspError::Overflow && final(self).inputs() == old(
                self,
            ).inputs(),
    {
        let n = self.inputs.len();
        let ghost x0 = self.inputs@;
        let ghost prev = widen(self.outputs@);
        proof {
            lemma_outputs_prefix(self.b@, self.a@, x0, sample, n as nat);
        }
        self.inputs.push(sample);
        let ghost x1 = self.inputs@;
        assert(prev == direct_form_outputs(self.b@, self.a@, x1, (n as int) as nat));
        match direct_form_step(&self.b, &self.a, &self.inputs, &self.outputs) {
            None => {
                self.inputs.pop();
                assert(self.inputs@ =~= x0);
                Err(DspError::Overflow)
            },
            Some(v) => {
                self.outputs.push(v);
                assert(widen(self.outputs@) =~= prev.push(v as int));
                assert(direct_form_outputs(self.b@, self.a@, x1, (n + 1) as nat) == prev.push(
                    fir_output(self.b@, x1, n as int) - feedback_partial(
                        self.a@,
                        prev,
                        n as int,
                        self.a@.len(),
                    ),
                ));
                Ok(v)
            },
        }
    }
}

/// Relies on `itertools::Itertools::tuple_windows` over pairs: for `k` items
/// it yields the `k − 1` overlapping pairs `(x[i], x[i+1])` in order, and
/// nothing when there are fewer than two.
#[verifier::external_body]
fn adjacent_pairs(x: &Vec<i32>) -> (r: Vec<(i32, i32)>)
    ensures
        r@.len() == (if x@.len() == 0 {
            0
        } else {
            x@.len() - 1
        }),
        forall|i: int| 0 <= i < r@.len() ==> #[trigger] r@[i] == (x@[i], x@[i + 1]),
{
    x.iter().copied().tuple_windows().collect()
}

/// The non-causal system `y[n] = b0·x[n+1] + b1·x[n]`, which reads one
/// sample ahead. The last input has no successor, so its output is skipped:
/// `N` inputs give `N − 1` outputs (none for an empty input).
pub fn lookahead_filter(x: &Vec<i32>, b0: i32, b1: i32) -> (y: Vec<i128>)
    ensures
        y@.len() == (if x@.len() == 0 {
            0
        } else {
            x@.len() - 1
        }),
        forall|n: int|
            0 <= n < y@.len() ==> #[trigger] y@[n] as int == b0 as int * x@[n + 1] as int + b1 as int
                * x@[n] as int,
{
    let pairs = adjacent_pairs(x);
    let mut y: Vec<i128> = Vec::new();
    let mut n: usize = 0;
    while n < pairs.len()
        invariant
            n <= pairs.len(),
            pairs@.len() == (if x@.len() == 0 {
                0
            } else {
                x@.len() - 1
            }),
            forall|i: int| 0 <= i < pairs@.len() ==> #[trigger] pairs@[i] == (x@[i], x@[i + 1]),
            y@.len() == n,
            forall|m: int|
                0 <= m < n ==> #[trigger] y@[m] as int == b0 as int * x@[m + 1] as int + b1 as int
                    * x@[m] as int,
        decreases pairs.len() - n,
    {
        let (cur, next) = pairs[n];
        proof {
            lemma_product_bound(b0, next);
            lemma_product_bound(b1, cur);
        }
        let v = (b0 as i128) * (next as i128) + (b1 as i128) * (cur as i128);
        y.push(v);
        n = n + 1;
    }
    y
}

} // verus!
