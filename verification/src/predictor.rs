use vstd::prelude::*;
use crate::apm::{Apm, ApmModel, apm_bin_init, apm_p_step};
use crate::state_map::{SmModel, StateMap, sm_step};
use crate::state_table::{STATE_TABLE, next_state};

verus! {

/// The mathematical state of a `Predictor`: the partial-byte context, the
/// rolling window of prior whole bytes (low 24 bits), the probability exposed
/// to the coder, one bit-history state per partial-byte context, and the
/// states of the StateMap and of the five chained APMs.
#[verifier::ext_equal]
pub ghost struct PredModel {
    pub cxt: int,
    pub cxt4: u32,
    pub pr: int,
    pub state: Seq<u8>,
    pub sm: SmModel,
    pub apm1: ApmModel,
    pub apm2: ApmModel,
    pub apm3: ApmModel,
    pub apm4: ApmModel,
    pub apm5: ApmModel,
}

/// The state of a freshly created predictor: everything unseen, probability
/// one half.
pub open spec fn pred_init() -> PredModel {
    PredModel {
        cxt: 0,
        cxt4: 0,
        pr: 2048,
        state: Seq::new(256, |i: int| 0u8),
        sm: SmModel { cxt: 0, cells: Seq::new(65536, |i: int| 0x80000000u32) },
        apm1: ApmModel { bin: 0, bins: Seq::new(256 * 33, |k: int| apm_bin_init(k % 33)) },
        apm2: ApmModel { bin: 0, bins: Seq::new(256 * 33, |k: int| apm_bin_init(k % 33)) },
        apm3: ApmModel { bin: 0, bins: Seq::new(65536 * 33, |k: int| apm_bin_init(k % 33)) },
        apm4: ApmModel { bin: 0, bins: Seq::new(8192 * 33, |k: int| apm_bin_init(k % 33)) },
        apm5: ApmModel { bin: 0, bins: Seq::new(16384 * 33, |k: int| apm_bin_init(k % 33)) },
    }
}

/// One model step after observing `bit`: advance the bit history of the
/// current partial-byte context, fold the bit into the context (starting a
/// new byte and rolling the window when the byte completes), learn in the
/// StateMap under the key built from the new context and its bit history,
/// then refine that base probability through the five APMs in protocol
/// order with fixed rates and mixing weights.
#[verifier::opaque]
pub open spec fn pred_update(m: PredModel, bit: u32) -> PredModel {
    let st = m.state.update(m.cxt, STATE_TABLE[m.state[m.cxt] as int][bit as int]);
    let c1 = 2 * m.cxt + bit;
    let cxt: int = if c1 >= 256 {
        0
    } else {
        c1
    };
    let cxt4: u32 = if c1 >= 256 {
        ((m.cxt4 * 256 + (c1 - 256)) % 0x1000000) as u32
    } else {
        m.cxt4
    };
    let key = cxt * 256 + st[cxt];
    let cells = sm_step(m.sm, bit).cells;
    let sm1 = SmModel { cxt: key, cells };
    let p0 = cells[key] / 0x100000;
    let (a1, p1) = apm_p_step(m.apm1, bit, 5, p0 as int, cxt);
    let (a2, p2) = apm_p_step(m.apm2, bit, 9, p0 as int, cxt);
    let pa = (p1 + p2 + 1) / 2;
    let (a3, p3) = apm_p_step(m.apm3, bit, 7, pa, cxt + (cxt4 % 256) * 256);
    let (a4, p4) = apm_p_step(m.apm4, bit, 7, p3, cxt + ((cxt4 / 256) % 32) * 256);
    let pb = (p4 * 3 + p3 + 2) / 4;
    let hash: u32 = vstd::wrapping::u32_specs::wrapping_mul(cxt4, 123456791) / 0x40000;
    let (a5, p5) = apm_p_step(m.apm5, bit, 7, pb, ((cxt as u32) ^ hash) as int);
    let pc = (p5 + pb + 1) / 2;
    PredModel {
        cxt,
        cxt4,
        pr: pc,
        state: st,
        sm: sm1,
        apm1: a1,
        apm2: a2,
        apm3: a3,
        apm4: a4,
        apm5: a5,
    }
}

/// The probability of one APM refinement stays on the 4096-point scale,
/// whatever the map's state: it interpolates two 16-bit bins and rescales.
proof fn lemma_apm_step_pr_range(m: ApmModel, bit: u32, rate: u32, pr: int, cxt: int)
    ensures
        0 <= apm_p_step(m, bit, rate, pr, cxt).1 <= 4095,
{
    let bins1 = crate::apm::apm_apply(m.bins, m.bin, bit, rate);
    let t = crate::logistic::spec_stretch(pr) + 2048;
    let w = t % 128;
    let nb = t / 128 + cxt * 33;
    let a = bins1[nb] as int;
    let b = bins1[nb + 1] as int;
    assert(0 <= a * (128 - w) + b * w <= 65535 * 128) by (nonlinear_arith)
        requires
            0 <= a <= 65535 && 0 <= b <= 65535 && 0 <= w < 128,
    ;
}

/// The probability a predictor exposes after any step stays on the
/// 4096-point scale, whatever state the step started from.
pub proof fn lemma_pred_pr_range(m: PredModel, bit: u32)
    ensures
        0 <= pred_update(m, bit).pr <= 4095,
{
    reveal(pred_update);
    let st = m.state.update(m.cxt, STATE_TABLE[m.state[m.cxt] as int][bit as int]);
    let c1 = 2 * m.cxt + bit;
    let cxt: int = if c1 >= 256 {
        0
    } else {
        c1
    };
    let cxt4: u32 = if c1 >= 256 {
        ((m.cxt4 * 256 + (c1 - 256)) % 0x1000000) as u32
    } else {
        m.cxt4
    };
    let key = cxt * 256 + st[cxt];
    let cells = sm_step(m.sm, bit).cells;
    let p0 = cells[key] / 0x100000;
    assert(p0 <= 4095);
    lemma_apm_step_pr_range(m.apm1, bit, 5, p0 as int, cxt);
    lemma_apm_step_pr_range(m.apm2, bit, 9, p0 as int, cxt);
    let p1 = apm_p_step(m.apm1, bit, 5, p0 as int, cxt).1;
    let p2 = apm_p_step(m.apm2, bit, 9, p0 as int, cxt).1;
    let pa = (p1 + p2 + 1) / 2;
    lemma_apm_step_pr_range(m.apm3, bit, 7, pa, cxt + (cxt4 % 256) * 256);
    let p3 = apm_p_step(m.apm3, bit, 7, pa, cxt + (cxt4 % 256) * 256).1;
    lemma_apm_step_pr_range(m.apm4, bit, 7, p3, cxt + ((cxt4 / 256) % 32) * 256);
    let p4 = apm_p_step(m.apm4, bit, 7, p3, cxt + ((cxt4 / 256) % 32) * 256).1;
    let pb = (p4 * 3 + p3 + 2) / 4;
    let hash: u32 = vstd::wrapping::u32_specs::wrapping_mul(cxt4, 123456791) / 0x40000;
    lemma_apm_step_pr_range(m.apm5, bit, 7, pb, ((cxt as u32) ^ hash) as int);
}

/// The composite predictor: a bit-history state machine per partial-byte
/// context, a StateMap over (context, bit history) keys, and five adaptive
/// probability maps chained in a fixed protocol order.
pub struct Predictor {
    cxt: usize,
    cxt4: u32,
    pr: i32,
    state: Vec<u8>,
    sm: StateMap,
    apm1: Apm,
    apm2: Apm,
    apm3: Apm,
    apm4: Apm,
    apm5: Apm,
}

impl Predictor {
    pub closed spec fn model(&self) -> PredModel {
        PredModel {
            cxt: self.cxt as int,
            cxt4: self.cxt4,
            pr: self.pr as int,
            state: self.state@,
            sm: self.sm.model(),
            apm1: self.apm1.model(),
            apm2: self.apm2.model(),
            apm3: self.apm3.model(),
            apm4: self.apm4.model(),
            apm5: self.apm5.model(),
        }
    }

    pub closed spec fn wf(&self) -> bool {
        &&& self.cxt < 256
        &&& self.cxt4 < 0x1000000
        &&& 0 <= self.pr < 4096
        &&& self.state@.len() == 256
        &&& self.sm.wf()
        &&& self.sm.model().cells.len() == 65536
        &&& self.apm1.wf() && self.apm1.cxts() == 256
        &&& self.apm2.wf() && self.apm2.cxts() == 256
        &&& self.apm3.wf() && self.apm3.cxts() == 65536
        &&& self.apm4.wf() && self.apm4.cxts() == 8192
        &&& self.apm5.wf() && self.apm5.cxts() == 16384
    }

    pub fn new() -> (p: Predictor)
        ensures
            p.wf(),
            p.model() == pred_init(),
    {
        let mut state: Vec<u8> = Vec::new();
        let mut i: usize = 0;
        while i < 256
            invariant
                i <= 256,
                state@.len() == i,
                forall|j: int| 0 <= j < i ==> state@[j] == 0u8,
            decreases 256 - i,
        {
            state.push(0);
            i += 1;
        }
        let p = Predictor {
            cxt: 0,
            cxt4: 0,
            pr: 2048,
            state,
            sm: StateMap::new(65536),
            apm1: Apm::new(256),
            apm2: Apm::new(256),
            apm3: Apm::new(65536),
            apm4: Apm::new(8192),
            apm5: Apm::new(16384),
        };
        proof {
            assert(p.model().state =~= pred_init().state);
            assert(p.model() =~~= pred_init());
        }
        p
    }

    /// The probability that the next bit is 1, on the 4096-point scale.
    pub fn p(&self) -> (r: i32)
        requires
            self.wf(),
        ensures
            r == self.model().pr,
            0 <= r < 4096,
    {
        self.pr
    }

    /// Drives every component one step after observing `bit`.
    #[verifier::rlimit(50)]
    pub fn update(&mut self, bit: u8)
        requires
            old(self).wf(),
            bit < 2,
        ensures
            final(self).wf(),
            final(self).model() == pred_update(old(self).model(), bit as u32),
    {
        let s0 = self.state[self.cxt];
        let s1 = next_state(s0, bit);
        self.state[self.cxt] = s1;

        self.cxt = 2 * self.cxt + bit as usize;
        if self.cxt >= 256 {
            self.cxt4 = (self.cxt4 * 256 + (self.cxt - 256) as u32) % 0x1000000;
            self.cxt = 0;
        }

        let key: usize = self.cxt * 256 + self.state[self.cxt] as usize;
        let p0 = self.sm.p(bit, key);

        let p1 = self.apm1.p(bit, 5, p0, self.cxt);
        let p2 = self.apm2.p(bit, 9, p0, self.cxt);
        let pa = (p1 + p2 + 1) / 2;

        let c3: usize = self.cxt + ((self.cxt4 % 256) * 256) as usize;
        let p3 = self.apm3.p(bit, 7, pa, c3);

        let c4: usize = self.cxt + (((self.cxt4 / 256) % 32) * 256) as usize;
        let p4 = self.apm4.p(bit, 7, p3, c4);
        let pb = (p4 * 3 + p3 + 2) / 4;

        let hash: u32 = self.cxt4.wrapping_mul(123456791) / 0x40000;
        proof {
            let c = self.cxt as u32;
            assert((c ^ hash) < 16384) by (bit_vector)
                requires
                    c < 256 && hash < 16384,
        }
        let c5: usize = ((self.cxt as u32) ^ hash) as usize;
        let p5 = self.apm5.p(bit, 7, pb, c5);
        self.pr = (p5 + pb + 1) / 2;

        proof {
            reveal(pred_update);
            assert(self.state@.len() == 256);
            assert(self.sm.model().cells.len() == 65536);
            assert(final(self).model() =~~= pred_update(old(self).model(), bit as u32));
        }
    }
}

} // verus!
