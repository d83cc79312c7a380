use vstd::prelude::*;
use vstd::arithmetic::power2::pow2;
use crate::logistic::{Stretch, spec_squash, spec_stretch, squash, lemma_spec_squash_bounds,
    lemma_spec_stretch_bounds};

verus! {

/// Each context owns 33 bins, one per 128-wide bucket of the stretched
/// domain.
pub const APM_BINS_PER_CXT: usize = 33;

/// The cold-start value of lattice bin `j`: the probability at the bucket's
/// center, rescaled from 12 to 16 bits.
pub open spec fn apm_bin_init(j: int) -> u16 {
    (spec_squash((j - 16) * 128) * 16) as u16
}

/// The value the bracketing bins are nudged toward when `bit` is observed at
/// adaptation rate `rate`.
pub open spec fn apm_goal(bit: u32, rate: u32) -> int {
    if bit == 1 {
        65536 + pow2(rate as nat) - 2
    } else {
        0
    }
}

/// One adaptation step: the pair of bins selected by the previous prediction
/// each move toward the goal by a 2^-rate fraction of their distance from it.
pub open spec fn apm_apply(bins: Seq<u16>, bin: int, bit: u32, rate: u32) -> Seq<u16> {
    let g = apm_goal(bit, rate);
    let p = pow2(rate as nat) as int;
    let a = bins[bin] as int;
    let b = bins[bin + 1] as int;
    let a2: u16 = if bit == 1 {
        (a + (g - a) / p) as u16
    } else {
        (a - (a + p - 1) / p) as u16
    };
    let b2: u16 = if bit == 1 {
        (b + (g - b) / p) as u16
    } else {
        (b - (b + p - 1) / p) as u16
    };
    bins.update(bin, a2).update(bin + 1, b2)
}

/// The mathematical state of an `Apm`: its bin table and the bin pair picked
/// by the last prediction (`bin` and `bin + 1`).
pub ghost struct ApmModel {
    pub bin: int,
    pub bins: Seq<u16>,
}

/// One prediction step: after the adaptation step for the previous call, the
/// input probability is stretched, the two bins bracketing it inside `cxt`'s
/// 33-bin curve are selected, and their interpolation (with 7-bit weight,
/// rescaled from 16 to 12 bits) is the refined probability.
pub open spec fn apm_p_step(m: ApmModel, bit: u32, rate: u32, pr: int, cxt: int) -> (ApmModel, int) {
    let bins1 = apm_apply(m.bins, m.bin, bit, rate);
    let t = spec_stretch(pr) + 2048;
    let w = t % 128;
    let nb = t / 128 + cxt * 33;
    let r = ((bins1[nb] as int) * (128 - w) + (bins1[nb + 1] as int) * w) / 2048;
    (ApmModel { bin: nb, bins: bins1 }, r)
}

/// An adaptive probability map: refines an input probability through a
/// learned per-context correction curve.
pub struct Apm {
    s: Stretch,
    bin: usize,
    num_cxts: usize,
    bins: Vec<u16>,
}

impl Apm {
    pub closed spec fn model(&self) -> ApmModel {
        ApmModel { bin: self.bin as int, bins: self.bins@ }
    }

    /// The number of contexts the map was created with.
    pub closed spec fn cxts(&self) -> int {
        self.num_cxts as int
    }

    pub closed spec fn wf(&self) -> bool {
        &&& self.s.wf()
        &&& self.num_cxts >= 1
        &&& self.bins@.len() == self.num_cxts * APM_BINS_PER_CXT
        &&& self.bin + 1 < self.bins@.len()
    }

    /// Every context starts with the same monotone default curve: the squash
    /// of its bucket's center.
    pub fn new(n: usize) -> (a: Apm)
        requires
            1 <= n <= 0x100000,
        ensures
            a.wf(),
            a.cxts() == n,
            a.model() == (ApmModel {
                bin: 0,
                bins: Seq::new((n * APM_BINS_PER_CXT) as nat, |k: int| apm_bin_init(k % 33)),
            }),
    {
        let total: usize = n * APM_BINS_PER_CXT;
        let mut bins: Vec<u16> = Vec::new();
        let mut k: usize = 0;
        let mut j: usize = 0;
        while k < total
            invariant
                k <= total,
                total == n * APM_BINS_PER_CXT,
                j == k % 33,
                bins@.len() == k,
                forall|i: int| 0 <= i < k ==> bins@[i] == apm_bin_init(i % 33),
            decreases total - k,
        {
            proof {
                lemma_spec_squash_bounds((j - 16) * 128);
            }
            let v: u16 = (squash((j as i32 - 16) * 128) * 16) as u16;
            bins.push(v);
            k += 1;
            j += 1;
            if j == 33 {
                j = 0;
            }
        }
        let a = Apm { s: Stretch::new(), bin: 0, num_cxts: n, bins };
        proof {
            assert(a.model().bins =~= Seq::new(
                (n * APM_BINS_PER_CXT) as nat,
                |k: int| apm_bin_init(k % 33),
            ));
        }
        a
    }

    /// Nudges the bin pair selected by the previous prediction toward the
    /// observed bit. Smaller rates adapt faster; bins saturate inside the
    /// 16-bit range and never overshoot it.
    pub fn update(&mut self, bit: u8, rate: u32)
        requires
            old(self).wf(),
            bit < 2,
            0 < rate < 32,
        ensures
            final(self).wf(),
            final(self).cxts() == old(self).cxts(),
            final(self).model().bin == old(self).model().bin,
            final(self).model().bins == apm_apply(
                old(self).model().bins,
                old(self).model().bin,
                bit as u32,
                rate,
            ),
    {
        let pow: u32 = 1u32 << rate;
        proof {
            vstd::bits::lemma_u32_pow2_no_overflow(rate as nat);
            vstd::bits::lemma_u32_shl_is_mul(1u32, rate);
            vstd::arithmetic::power2::lemma_pow2_adds(1, (rate - 1) as nat);
            vstd::arithmetic::power2::lemma_pow2_pos((rate - 1) as nat);
            vstd::arithmetic::power2::lemma2_to64();
        }
        let len: usize = self.bins.len();
        let a: u32 = self.bins[self.bin] as u32;
        let b: u32 = self.bins[self.bin + 1] as u32;
        let a2: u32;
        let b2: u32;
        if bit == 1 {
            proof {
                lemma_toward_high(a as int, pow as int);
                lemma_toward_high(b as int, pow as int);
            }
            let g: u32 = 65536 + pow - 2;
            a2 = a + (g - a) / pow;
            b2 = b + (g - b) / pow;
        } else {
            proof {
                lemma_toward_low(a as int, pow as int);
                lemma_toward_low(b as int, pow as int);
            }
            a2 = a - (a + pow - 1) / pow;
            b2 = b - (b + pow - 1) / pow;
        }
        let i = self.bin;
        self.bins[i] = a2 as u16;
        self.bins[i + 1] = b2 as u16;
        proof {
            assert(final(self).model().bins =~= apm_apply(
                old(self).model().bins,
                old(self).model().bin,
                bit as u32,
                rate,
            ));
        }
    }

    /// Applies the pending adaptation step, then refines probability `pr`
    /// under context `cxt` by interpolating the two bracketing bins.
    pub fn p(&mut self, bit: u8, rate: u32, pr: i32, cxt: usize) -> (r: i32)
        requires
            old(self).wf(),
            bit < 2,
            0 < rate < 32,
            0 <= pr < 4096,
            cxt < old(self).cxts(),
        ensures
            final(self).wf(),
            final(self).cxts() == old(self).cxts(),
            (final(self).model(), r as int) == apm_p_step(
                old(self).model(),
                bit as u32,
                rate,
                pr as int,
                cxt as int,
            ),
            0 <= r < 4096,
    {
        self.update(bit, rate);
        proof {
            lemma_spec_stretch_bounds(pr as int);
        }
        let t: u32 = (self.s.stretch(pr) + 2048) as u32;
        let w: u32 = t % 128;
        let len: usize = self.bins.len();
        proof {
            assert(t / 128 <= 31) by (nonlinear_arith)
                requires
                    1 <= t <= 4095,
            ;
            let nc = old(self).cxts();
            assert(cxt * 33 + 32 < (cxt + 1) * 33) by (nonlinear_arith);
            assert((cxt + 1) * 33 <= nc * 33) by (nonlinear_arith)
                requires
                    cxt + 1 <= nc,
            ;
        }
        let nb: usize = (t / 128) as usize + cxt * APM_BINS_PER_CXT;
        self.bin = nb;
        let a: u32 = self.bins[nb] as u32;
        let b: u32 = self.bins[nb + 1] as u32;
        proof {
            assert(a * (128 - w) + b * w <= 65535 * 128) by (nonlinear_arith)
                requires
                    a <= 65535 && b <= 65535 && 0 <= w < 128,
            ;
        }
        let r: u32 = (a * (128 - w) + b * w) / 2048;
        r as i32
    }
}

/// A run of 1 observations drives the selected bins monotonically upward:
/// one adaptation step toward 1 never lowers either selected bin, and a bin
/// never overshoots the top of the 16-bit range, so the refined probability
/// saturates instead of wrapping.
pub proof fn lemma_apm_adapt_toward_one(bins: Seq<u16>, bin: int, rate: u32)
    requires
        0 <= bin,
        bin + 1 < bins.len(),
        0 < rate < 32,
    ensures
        bins[bin] <= apm_apply(bins, bin, 1, rate)[bin],
        bins[bin + 1] <= apm_apply(bins, bin, 1, rate)[bin + 1],
{
    lemma_pow2_in_range(rate);
    lemma_toward_high(bins[bin] as int, pow2(rate as nat) as int);
    lemma_toward_high(bins[bin + 1] as int, pow2(rate as nat) as int);
}

/// A run of 0 observations drives the selected bins monotonically downward:
/// one adaptation step toward 0 never raises either selected bin, and a bin
/// never undershoots zero.
pub proof fn lemma_apm_adapt_toward_zero(bins: Seq<u16>, bin: int, rate: u32)
    requires
        0 <= bin,
        bin + 1 < bins.len(),
        0 < rate < 32,
    ensures
        apm_apply(bins, bin, 0, rate)[bin] <= bins[bin],
        apm_apply(bins, bin, 0, rate)[bin + 1] <= bins[bin + 1],
{
    lemma_pow2_in_range(rate);
    lemma_toward_low(bins[bin] as int, pow2(rate as nat) as int);
    lemma_toward_low(bins[bin + 1] as int, pow2(rate as nat) as int);
}

/// Bins that only moved up can only raise the interpolated output, whatever
/// the interpolation weight: together with the two adaptation lemmas, a run
/// of identical bits moves the map's output monotonically toward that bit's
/// extreme.
pub proof fn lemma_apm_interp_monotone(a: int, b: int, a2: int, b2: int, w: int)
    requires
        0 <= w < 128,
        0 <= a <= a2,
        0 <= b <= b2,
    ensures
        (a * (128 - w) + b * w) / 2048 <= (a2 * (128 - w) + b2 * w) / 2048,
{
    assert(a * (128 - w) <= a2 * (128 - w)) by (nonlinear_arith)
        requires
            0 <= a <= a2 && w < 128,
    ;
    assert(b * w <= b2 * w) by (nonlinear_arith)
        requires
            0 <= b <= b2 && 0 <= w,
    ;
    vstd::arithmetic::div_mod::lemma_div_is_ordered(
        a * (128 - w) + b * w,
        a2 * (128 - w) + b2 * w,
        2048,
    );
}

/// For adaptation rates below 32, the step divisor 2^rate lies between 2 and
/// 2^31.
proof fn lemma_pow2_in_range(rate: u32)
    requires
        0 < rate < 32,
    ensures
        2 <= pow2(rate as nat) <= 0x80000000,
{
    vstd::arithmetic::power2::lemma_pow2_adds(1, (rate - 1) as nat);
    vstd::arithmetic::power2::lemma_pow2_pos((rate - 1) as nat);
    vstd::arithmetic::power2::lemma2_to64();
    if rate < 31 {
        vstd::arithmetic::power2::lemma_pow2_strictly_increases(rate as nat, 31);
    }
}

/// Moving a 16-bit bin toward the high goal never overshoots the 16-bit
/// range, and never moves it down.
proof fn lemma_toward_high(a: int, p: int)
    requires
        0 <= a <= 65535,
        2 <= p,
    ensures
        a <= a + (65536 + p - 2 - a) / p <= 65535,
{
    let k = 65535 - a;
    assert((p - 1 + k) / p >= 0) by (nonlinear_arith)
        requires
            p >= 2 && k >= 0,
    ;
    assert((p - 1 + k) / p <= k) by (nonlinear_arith)
        requires
            p >= 2 && k >= 0,
    ;
}

/// Moving a 16-bit bin toward zero never undershoots zero, and never moves it
/// up.
proof fn lemma_toward_low(a: int, p: int)
    requires
        0 <= a <= 65535,
        2 <= p,
    ensures
        0 <= a - (a + p - 1) / p <= a,
{
    assert((a + p - 1) / p >= 0) by (nonlinear_arith)
        requires
            p >= 2 && a >= 0,
    ;
    assert((a + p - 1) / p <= a) by (nonlinear_arith)
        requires
            p >= 2 && a >= 0,
    ;
}

} // verus!
