//! The exact parts of the radix-2 transform engine: the power-of-two length
//! check, the bit-reversed ordering that lets the in-place transform hand
//! back bins in natural order, complex products of fixed-point bins, and the
//! truncation check of a Fourier-series reconstruction.
use vstd::prelude::*;

use crate::DspError;

use itertools::Itertools;

verus! {

/// `2^k`.
pub open spec fn pow2(k: nat) -> nat
    decreases k,
{
    if k == 0 {
        1
    } else {
        2 * pow2((k - 1) as nat)
    }
}

pub open spec fn is_pow2(n: nat) -> bool {
    exists|k: nat| #[trigger] pow2(k) == n
}

proof fn lemma_pow2_increasing(j: nat, k: nat)
    requires
        j < k,
    ensures
        pow2(j) < pow2(k),
    decreases k - j,
{
    if j + 1 < k {
        lemma_pow2_increasing(j, (k - 1) as nat);
    }
    lemma_pow2_positive((k - 1) as nat);
}

proof fn lemma_pow2_positive(k: nat)
    ensures
        pow2(k) >= 1,
    decreases k,
{
    if k > 0 {
        lemma_pow2_positive((k - 1) as nat);
    }
}

/// The number of radix-2 stages of a transform of length `n`: `Ok(k)` with
/// `2^k == n`, or `NotPowerOfTwo` when `n` is no power of two.
pub fn fft_stages(n: usize) -> (r: Result<usize, DspError>)
    ensures
        r matches Ok(k) ==> pow2(k as nat) == n,
        r is Err <==> !is_pow2(n as nat),
        r matches Err(e) ==> e == DspError::NotPowerOfTwo,
{
    let mut m: usize = 1;
    let mut k: usize = 0;
    while m < n
        invariant
            m == pow2(k as nat),
            k < m,
            m <= n || n == 0,
        decreases n - m,
    {
        if m > n / 2 {
            proof {
                assert forall|j: nat| #[trigger] pow2(j) != n by {
                    if j < k {
                        lemma_pow2_increasing(j, k as nat);
                    } else if j > k + 1 {
                        lemma_pow2_increasing((k + 1) as nat, j);
                    }
                }
            }
            return Err(DspError::NotPowerOfTwo);
        }
        m = m * 2;
        k = k + 1;
    }
    if m == n {
        Ok(k)
    } else {
        proof {
            assert forall|j: nat| #[trigger] pow2(j) != n by {
                lemma_pow2_positive(j);
            }
        }
        Err(DspError::NotPowerOfTwo)
    }
}

/// Bit `t` of `i`.
pub open spec fn bit(i: nat, t: nat) -> nat {
    (i / pow2(t)) % 2
}

/// The low `bits` bits of `i` in reverse order: bit `t` of `i` becomes bit
/// `bits − 1 − t` of the result.
pub open spec fn rev_bits(i: nat, bits: nat) -> nat
    decreases bits,
{
    if bits == 0 {
        0
    } else {
        2 * rev_bits(i, (bits - 1) as nat) + bit(i, (bits - 1) as nat)
    }
}

proof fn lemma_rev_bits_bound(i: nat, bits: nat)
    ensures
        rev_bits(i, bits) < pow2(bits),
    decreases bits,
{
    if bits > 0 {
        lemma_rev_bits_bound(i, (bits - 1) as nat);
    }
}

/// `i` with its low `bits` bits reversed.
pub fn bit_reverse(i: usize, bits: usize) -> (r: usize)
    requires
        pow2(bits as nat) <= usize::MAX,
    ensures
        r == rev_bits(i as nat, bits as nat),
{
    let mut r: usize = 0;
    let mut v: usize = i;
    let mut t: usize = 0;
    assert(pow2(0) == 1);
    assert(i as nat / pow2(0) == i);
    while t < bits
        invariant
            t <= bits,
            pow2(bits as nat) <= usize::MAX,
            r == rev_bits(i as nat, t as nat),
            v == i as nat / pow2(t as nat),
        decreases bits - t,
    {
        proof {
            lemma_rev_bits_bound(i as nat, (t + 1) as nat);
            if t + 1 < bits {
                lemma_pow2_increasing((t + 1) as nat, bits as nat);
            }
            lemma_pow2_positive(t as nat);
            vstd::arithmetic::div_mod::lemma_div_denominator(i as int, pow2(t as nat) as int, 2);
        }
        r = 2 * r + v % 2;
        v = v / 2;
        t = t + 1;
    }
    r
}

/// Reorders a buffer of `2^bits` entries so that position `i` receives the
/// entry whose index is `i` with its bits reversed: the reordering that lets
/// an in-place radix-2 transform produce its bins in natural order.
pub fn bit_reverse_permute<T: Copy>(buf: &mut Vec<T>, bits: usize)
    requires
        old(buf)@.len() == pow2(bits as nat),
    ensures
        final(buf)@.len() == old(buf)@.len(),
        forall|i: int|
            0 <= i < old(buf)@.len() ==> #[trigger] final(buf)@[i] == old(buf)@[rev_bits(
                i as nat,
                bits as nat,
            ) as int],
{
    let n = buf.len();
    let mut out: Vec<T> = Vec::new();
    let mut i: usize = 0;
    while i < n
        invariant
            n == buf@.len(),
            n == pow2(bits as nat),
            i <= n,
            out@.len() == i,
            forall|j: int|
                0 <= j < i ==> #[trigger] out@[j] == buf@[rev_bits(j as nat, bits as nat) as int],
        decreases n - i,
    {
        proof {
            lemma_rev_bits_bound(i as nat, bits as nat);
        }
        let j = bit_reverse(i, bits);
        out.push(buf[j]);
        i = i + 1;
    }
    *buf = out;
}

/// A frequency bin or complex intermediate in a fixed-point format.
#[derive(Debug, Clone, Copy, PartialEq, Eq, Structural)]
pub struct Complex {
    pub re: i64,
    pub im: i64,
}

pub open spec fn in_i64(v: int) -> bool {
    i64::MIN <= v <= i64::MAX
}

/// Real part of `(a.re + a.im·i)(b.re + b.im·i)`.
pub open spec fn product_re(a: Complex, b: Complex) -> int {
    a.re as int * b.re as int - a.im as int * b.im as int
}

/// Imaginary part of `(a.re + a.im·i)(b.re + b.im·i)`.
pub open spec fn product_im(a: Complex, b: Complex) -> int {
    a.re as int * b.im as int + a.im as int * b.re as int
}

pub open spec fn product_fits(a: Complex, b: Complex) -> bool {
    in_i64(product_re(a, b)) && in_i64(product_im(a, b))
}

proof fn lemma_i64_product_bound(p: i64, q: i64)
    ensures
        -0x4000_0000_0000_0000_0000_0000_0000_0000 <= p as int * q as int
            <= 0x4000_0000_0000_0000_0000_0000_0000_0000,
{
    assert(-0x4000_0000_0000_0000_0000_0000_0000_0000 <= p as int * q as int
        <= 0x4000_0000_0000_0000_0000_0000_0000_0000) by (nonlinear_arith)
        requires
            -0x8000_0000_0000_0000 <= p <= 0x7fff_ffff_ffff_ffff,
            -0x8000_0000_0000_0000 <= q <= 0x7fff_ffff_ffff_ffff,
    ;
}

/// `(a.re·b.re − a.im·b.im) + (a.re·b.im + a.im·b.re)·i`, absent when a part
/// does not fit in 64 bits.
pub fn complex_mul(a: Complex, b: Complex) -> (r: Option<Complex>)
    ensures
        r is Some <==> product_fits(a, b),
        r matches Some(c) ==> c.re == product_re(a, b) && c.im == product_im(a, b),
{
    proof {
        lemma_i64_product_bound(a.re, b.re);
        lemma_i64_product_bound(a.im, b.im);
        lemma_i64_product_bound(a.re, b.im);
        lemma_i64_product_bound(a.im, b.re);
    }
    let rr = (a.re as i128) * (b.re as i128);
    let ii = (a.im as i128) * (b.im as i128);
    let ri = (a.re as i128) * (b.im as i128);
    let ir = (a.im as i128) * (b.re as i128);
    let re = match rr.checked_sub(ii) {
        Some(v) => v,
        None => {
            return None;
        },
    };
    let im = match ri.checked_add(ir) {
        Some(v) => v,
        None => {
            return None;
        },
    };
    if re < i64::MIN as i128 || re > i64::MAX as i128 || im < i64::MIN as i128 || im
        > i64::MAX as i128 {
        return None;
    }
    Some(Complex { re: re as i64, im: im as i64 })
}

/// The bin-by-bin product of two spectra of the same length, the
/// frequency-domain form of filtering.
///
/// Fails with `LengthMismatch` when the lengths differ, and with `Overflow`
/// when a product does not fit in 64-bit parts.
pub fn spectrum_product(xs: &Vec<Complex>, hs: &Vec<Complex>) -> (r: Result<
    Vec<Complex>,
    DspError,
>)
    ensures
        r matches Err(e) ==> (e == DspError::LengthMismatch <==> xs.len() != hs.len()),
        r matches Err(e) ==> (e == DspError::LengthMismatch || e == DspError::Overflow),
        r is Ok <==> xs.len() == hs.len() && forall|k: int|
            0 <= k < xs.len() ==> #[trigger] product_fits(xs@[k], hs@[k]),
        r matches Ok(ys) ==> ys@.len() == xs.len() && forall|k: int|
            0 <= k < xs.len() ==> (#[trigger] ys@[k]).re == product_re(xs@[k], hs@[k])
                && ys@[k].im == product_im(xs@[k], hs@[k]),
{
    if xs.len() != hs.len() {
        return Err(DspError::LengthMismatch);
    }
    let mut ys: Vec<Complex> = Vec::new();
    let mut k: usize = 0;
    while k < xs.len()
        invariant
            k <= xs.len(),
            xs.len() == hs.len(),
            ys@.len() == k,
            forall|j: int| 0 <= j < k ==> #[trigger] product_fits(xs@[j], hs@[j]),
            forall|j: int|
                0 <= j < k ==> (#[trigger] ys@[j]).re == product_re(xs@[j], hs@[j]) && ys@[j].im
                    == product_im(xs@[j], hs@[j]),
        decreases xs.len() - k,
    {
        match complex_mul(xs[k], hs[k]) {
            Some(c) => ys.push(c),
            None => {
                return Err(DspError::Overflow);
            },
        }
        k = k + 1;
    }
    Ok(ys)
}

/// The number of harmonics a Fourier-series reconstruction of order `k`
/// sums (`k + 1`, from the constant term on), given `available`
/// coefficients; `OrderTooLarge` when `k` is not below `available`.
pub fn dtfse_terms(k: usize, available: usize) -> (r: Result<usize, DspError>)
    ensures
        r is Ok <==> k < available,
        r matches Ok(t) ==> t == k + 1,
        r matches Err(e) ==> e == DspError::OrderTooLarge,
{
    if k < available {
        Ok(k + 1)
    } else {
        Err(DspError::OrderTooLarge)
    }
}

/// Relies on `itertools::Itertools::interleave_shortest`, given the samples
/// and an endless run of zeros: it alternates the two, starting with the
/// samples, and stops when the samples run out.
#[verifier::external_body]
fn interleave_with_zeros(x: &Vec<i32>) -> (r: Vec<i32>)
    ensures
        r@.len() == 2 * x@.len(),
        forall|k: int| 0 <= k < x@.len() ==> #[trigger] r@[2 * k] == x@[k] && r@[2 * k + 1] == 0,
{
    x.iter().copied().interleave_shortest(std::iter::repeat(0)).collect()
}

/// A real signal as one flat buffer of `(re, im)` pairs with zero imaginary
/// parts: the layout of a complex transform that works in place.
pub fn interleaved_complex(x: &Vec<i32>) -> (r: Vec<i32>)
    ensures
        r@.len() == 2 * x@.len(),
        forall|k: int| 0 <= k < x@.len() ==> #[trigger] r@[2 * k] == x@[k] && r@[2 * k + 1] == 0,
{
    interleave_with_zeros(x)
}

} // verus!
