//! Canonical test signals as pure functions of the sample index.
//!
//! Every generator is total and deterministic; a value that does not fit in
//! a 32-bit sample is reported as absent rather than wrapped.
use vstd::prelude::*;

use crate::DspError;

verus! {

/// A canonical discrete-time test signal.
pub enum SignalKind {
    /// `d[n]`: one at `n = 0`, zero elsewhere.
    UnitPulse,
    /// `u[n]`: one everywhere.
    UnitStep,
    /// `r[n] = n`.
    UnitRamp,
    /// `e[n] = base^n`.
    Exponential { base: i32 },
    /// `+amplitude` over the first half of each period (`n mod P < P/2`),
    /// `-amplitude` over the rest.
    Square { amplitude: i32, period: usize },
    /// Rises by `2·step` per sample from `-step·(P/2)` over the first half of
    /// each period, then falls by `2·step` per sample.
    Triangle { step: i32, period: usize },
    /// `step · (n mod P)`.
    Sawtooth { step: i32, period: usize },
}

pub open spec fn in_i32(v: int) -> bool {
    i32::MIN <= v <= i32::MAX
}

/// `base^e`.
pub open spec fn power(base: int, e: nat) -> int
    decreases e,
{
    if e == 0 {
        1
    } else {
        power(base, (e - 1) as nat) * base
    }
}

impl SignalKind {
    /// A periodic signal has a period of at least one sample.
    pub open spec fn wf(&self) -> bool {
        match *self {
            SignalKind::Square { period, .. } => period > 0,
            SignalKind::Triangle { period, .. } => period > 0,
            SignalKind::Sawtooth { period, .. } => period > 0,
            _ => true,
        }
    }

    /// The exact value of sample `n`.
    pub open spec fn value_at(&self, n: nat) -> int {
        match *self {
            SignalKind::UnitPulse => if n == 0 {
                1
            } else {
                0
            },
            SignalKind::UnitStep => 1,
            SignalKind::UnitRamp => n as int,
            SignalKind::Exponential { base } => power(base as int, n),
            SignalKind::Square { amplitude, period } => if n % (period as nat) < period / 2 {
                amplitude as int
            } else {
                -amplitude
            },
            SignalKind::Triangle { step, period } => {
                let m = (n % (period as nat)) as int;
                let half = (period / 2) as int;
                if m < half {
                    step * (2 * m - half)
                } else {
                    step * (3 * half - 2 * m)
                }
            },
            SignalKind::Sawtooth { step, period } => step * (n % (period as nat)),
        }
    }
}

pub open spec fn abs(v: int) -> int {
    if v < 0 {
        -v
    } else {
        v
    }
}

proof fn lemma_abs_mul(p: int, q: int)
    ensures
        abs(p * q) == abs(p) * abs(q),
{
    assert(abs(p * q) == abs(p) * abs(q)) by (nonlinear_arith);
}

proof fn lemma_power_small(base: int, e: nat)
    requires
        abs(base) <= 1,
    ensures
        abs(power(base, e)) <= 1,
    decreases e,
{
    if e > 0 {
        let q = power(base, (e - 1) as nat);
        lemma_power_small(base, (e - 1) as nat);
        lemma_abs_mul(q, base);
        assert(abs(base) * abs(q) <= 1) by (nonlinear_arith)
            requires
                0 <= abs(base) <= 1,
                0 <= abs(q) <= 1,
        ;
    }
}

proof fn lemma_power_monotone(base: int, k: nat, e: nat)
    requires
        abs(base) >= 1,
        k <= e,
    ensures
        abs(power(base, k)) <= abs(power(base, e)),
    decreases e - k,
{
    if k < e {
        let q = power(base, (e - 1) as nat);
        lemma_power_monotone(base, k, (e - 1) as nat);
        lemma_abs_mul(q, base);
        assert(abs(base) * abs(q) >= abs(q)) by (nonlinear_arith)
            requires
                abs(base) >= 1,
                abs(q) >= 0,
        ;
    }
}

/// `base^n`, absent when it does not fit in 32 bits.
fn exponential(base: i32, n: usize) -> (r: Option<i32>)
    ensures
        r == (if in_i32(power(base as int, n as nat)) {
            Some(power(base as int, n as nat) as i32)
        } else {
            None
        }),
{
    let mut p: i32 = 1;
    let mut k: usize = 0;
    while k < n
        invariant
            k <= n,
            p == power(base as int, k as nat),
        decreases n - k,
    {
        match p.checked_mul(base) {
            None => {
                proof {
                    let q = power(base as int, (k + 1) as nat);
                    assert(q == p * base);
                    if abs(base as int) <= 1 {
                        lemma_power_small(base as int, (k + 1) as nat);
                    }
                    assert(abs(q) >= 0x8000_0000);
                    if k + 1 < n {
                        let q2 = power(base as int, (k + 2) as nat);
                        lemma_abs_mul(q, base as int);
                        assert(abs(base as int) * abs(q) >= 2 * abs(q)) by (nonlinear_arith)
                            requires
                                abs(base as int) >= 2,
                                abs(q) >= 0,
                        ;
                        lemma_power_monotone(base as int, (k + 2) as nat, n as nat);
                    }
                }
                return None;
            },
            Some(v) => {
                p = v;
            },
        }
        k = k + 1;
    }
    Some(p)
}

/// A 32-bit sample holding `v`, absent when `v` does not fit.
pub open spec fn sample_of(v: int) -> Option<i32> {
    if in_i32(v) {
        Some(v as i32)
    } else {
        None
    }
}

fn narrow(v: i128) -> (r: Option<i32>)
    ensures
        r == sample_of(v as int),
{
    if i32::MIN as i128 <= v && v <= i32::MAX as i128 {
        Some(v as i32)
    } else {
        None
    }
}

proof fn lemma_scaled_bound(s: i32, t: int)
    requires
        -0x4_0000_0000_0000_0000 <= t <= 0x4_0000_0000_0000_0000,
    ensures
        -0x2_0000_0000_0000_0000_0000_0000 <= s * t <= 0x2_0000_0000_0000_0000_0000_0000,
{
    assert(-0x2_0000_0000_0000_0000_0000_0000 <= s * t <= 0x2_0000_0000_0000_0000_0000_0000)
        by (nonlinear_arith)
        requires
            -0x8000_0000 <= s <= 0x7fff_ffff,
            -0x4_0000_0000_0000_0000 <= t <= 0x4_0000_0000_0000_0000,
    ;
}

/// Sample `n` of the signal `kind`, absent when it does not fit in 32 bits.
pub fn generate(kind: &SignalKind, n: usize) -> (r: Option<i32>)
    requires
        kind.wf(),
    ensures
        r == sample_of(kind.value_at(n as nat)),
{
    match kind {
        SignalKind::UnitPulse => {
            if n == 0 {
                Some(1)
            } else {
                Some(0)
            }
        },
        SignalKind::UnitStep => Some(1),
        SignalKind::UnitRamp => narrow(n as i128),
        SignalKind::Exponential { base } => exponential(*base, n),
        SignalKind::Square { amplitude, period } => {
            if n % *period < *period / 2 {
                Some(*amplitude)
            } else {
                narrow(-(*amplitude as i128))
            }
        },
        SignalKind::Triangle { step, period } => {
            let m = (n % *period) as i128;
            let half = (*period / 2) as i128;
            if m < half {
                proof {
                    lemma_scaled_bound(*step, 2 * m - half);
                }
                narrow((*step as i128) * (2 * m - half))
            } else {
                proof {
                    lemma_scaled_bound(*step, 3 * half - 2 * m);
                }
                narrow((*step as i128) * (3 * half - 2 * m))
            }
        },
        SignalKind::Sawtooth { step, period } => {
            let m = (n % *period) as i128;
            proof {
                lemma_scaled_bound(*step, m as int);
            }
            narrow((*step as i128) * m)
        },
    }
}

/// The first `len` samples of the signal `kind`; absent when one of them
/// does not fit in 32 bits.
pub fn generate_signal(kind: &SignalKind, len: usize) -> (r: Option<Vec<i32>>)
    requires
        kind.wf(),
    ensures
        r is None <==> exists|n: int|
            0 <= n < len && sample_of(#[trigger] kind.value_at(n as nat)) is None,
        r matches Some(v) ==> v@.len() == len && forall|n: int|
            0 <= n < len ==> sample_of(kind.value_at(n as nat)) == Some(#[trigger] v@[n]),
{
    let mut v: Vec<i32> = Vec::new();
    let mut n: usize = 0;
    while n < len
        invariant
            kind.wf(),
            n <= len,
            v@.len() == n,
            forall|m: int|
                #![trigger v@[m]]
                #![trigger kind.value_at(m as nat)]
                0 <= m < n ==> sample_of(kind.value_at(m as nat)) == Some(v@[m]),
        decreases len - n,
    {
        match generate(kind, n) {
            Some(s) => v.push(s),
            None => {
                let ghost w: int = n as int;
                assert(0 <= w < len && sample_of(kind.value_at(w as nat)) is None);
                return None;
            },
        }
        n = n + 1;
    }
    Some(v)
}

/// One period repeated to fill `len` samples: `y[n] = period[n mod P]`.
pub fn periodic_extend<T: Copy>(period: &Vec<T>, len: usize) -> (y: Vec<T>)
    requires
        period.len() > 0,
    ensures
        y@.len() == len,
        forall|n: int| 0 <= n < len ==> #[trigger] y@[n] == period@[n % period.len() as int],
{
    let mut y: Vec<T> = Vec::new();
    let mut n: usize = 0;
    while n < len
        invariant
            period.len() > 0,
            n <= len,
            y@.len() == n,
            forall|m: int| 0 <= m < n ==> #[trigger] y@[m] == period@[m % period.len() as int],
        decreases len - n,
    {
        y.push(period[n % period.len()]);
        n = n + 1;
    }
    y
}

/// A finite, single-pass run of samples of one signal: each call hands out
/// the next sample until `len` have been handed out. It cannot be rewound;
/// a new stream starts again from sample zero.
pub struct SignalStream {
    kind: SignalKind,
    index: usize,
    len: usize,
}

impl SignalStream {
    pub closed spec fn kind(&self) -> SignalKind {
        self.kind
    }

    /// The index of the next sample.
    pub closed spec fn position(&self) -> nat {
        self.index as nat
    }

    /// How many samples the stream hands out in all.
    pub closed spec fn length(&self) -> nat {
        self.len as nat
    }

    pub closed spec fn wf(&self) -> bool {
        self.kind.wf() && self.index <= self.len
    }

    pub fn new(kind: SignalKind, len: usize) -> (r: Self)
        requires
            kind.wf(),
        ensures
            r.wf(),
            r.kind() == kind,
            r.position() == 0,
            r.length() == len,
    {
        SignalStream { kind, index: 0, len }
    }

    /// The next sample; `Ok(None)` once the stream is used up, and
    /// `Overflow` for a sample that does not fit in 32 bits (the stream
    /// still moves past it).
    pub fn next_sample(&mut self) -> (r: Result<Option<i32>, DspError>)
        requires
            old(self).wf(),
        ensures
            final(self).wf(),
            final(self).kind() == old(self).kind(),
            final(self).length() == old(self).length(),
            old(self).position() == old(self).length() ==> r == Ok::<Option<i32>, DspError>(None)
                && final(self).position() == old(self).position(),
            old(self).position() < old(self).length() ==> final(self).position() == old(
                self,
            ).position() + 1 && r == match sample_of(
                old(self).kind().value_at(old(self).position()),
            ) {
                Some(v) => Ok(Some(v)),
                None => Err(DspError::Overflow),
            },
    {
        if self.index == self.len {
            return Ok(None);
        }
        let v = generate(&self.kind, self.index);
        self.index = self.index + 1;
        match v {
            Some(v) => Ok(Some(v)),
            None => Err(DspError::Overflow),
        }
    }
}

} // verus!
