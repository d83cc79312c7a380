use vstd::prelude::*;

verus! {

/// Observation counts saturate here; a higher cap means a slower final
/// adaptation rate.
pub const SM_LIMIT: u32 = 127;

/// Adaptation step for a cell that has seen `i` observations: a 1/n-style
/// decaying reciprocal.
pub open spec fn spec_rec(i: int) -> int {
    32768int / (2 * i + 5)
}

/// The mathematical state of a `StateMap`: the context selected by the last
/// prediction and one packed cell per context. A cell keeps an 18-bit
/// probability estimate in its high bits (cell / 16384) and a saturating
/// observation count in its low 9 bits (cell % 512).
pub ghost struct SmModel {
    pub cxt: int,
    pub cells: Seq<u32>,
}

/// One learning step on the cell selected by `m.cxt`: bump the saturating
/// count, then move the packed probability toward the observed bit by the
/// prediction error scaled with the count's reciprocal, keeping the count
/// field untouched (the correction is a multiple of 512) and wrapping on
/// overflow.
pub open spec fn sm_step(m: SmModel, bit: u32) -> SmModel {
    let cell = m.cells[m.cxt];
    let count = cell % 512;
    let pr = cell / 16384;
    let bumped: u32 = if count < SM_LIMIT {
        (cell + 1) as u32
    } else {
        cell
    };
    let stepped: u32 = if bit == 1 {
        vstd::wrapping::u32_specs::wrapping_add(
            bumped,
            ((262144 - pr) * spec_rec(count as int) / 512 * 512) as u32,
        )
    } else {
        vstd::wrapping::u32_specs::wrapping_sub(
            bumped,
            ((pr * spec_rec(count as int) + 511) / 512 * 512) as u32,
        )
    };
    SmModel { cxt: m.cxt, cells: m.cells.update(m.cxt, stepped) }
}

/// The reciprocal step is positive and never exceeds its count-0 value.
proof fn lemma_rec_range(c: int)
    requires
        0 <= c < 512,
    ensures
        1 <= spec_rec(c) <= 6553,
{
    assert(1 <= 32768int / (2 * c + 5) <= 6553) by (nonlinear_arith)
        requires
            0 <= c < 512,
    ;
}

/// Bumping the saturating count touches only the low 9 bits: the probability
/// fields of the packed cell read the same before and after.
proof fn lemma_bump_keeps_estimate(cell: u32)
    requires
        cell % 512 < 127,
    ensures
        cell < 0xFFFFFFFFu32,
        (cell + 1) as u32 / 16384 == cell / 16384,
        (cell + 1) as u32 / 0x100000 == cell / 0x100000,
{
    assert(cell % 512 < 127 ==> cell < 0xFFFFFFFFu32 && ((cell + 1) as u32) / 16384 == cell / 16384
        && ((cell + 1) as u32) / 0x100000 == cell / 0x100000) by (bit_vector);
}

/// A run of 0 observations drives the selected cell's probability estimate
/// monotonically downward, both at its full 18-bit precision and at the
/// 12-bit precision exposed to callers; the correction never undershoots
/// zero, so no wraparound occurs in this direction.
pub proof fn lemma_sm_adapt_toward_zero(m: SmModel)
    requires
        0 <= m.cxt < m.cells.len(),
    ensures
        sm_step(m, 0).cells[m.cxt] / 16384 <= m.cells[m.cxt] / 16384,
        sm_step(m, 0).cells[m.cxt] / 0x100000 <= m.cells[m.cxt] / 0x100000,
{
    let cell = m.cells[m.cxt];
    let count = cell % 512;
    let pr = cell / 16384;
    let rec = spec_rec(count as int);
    lemma_rec_range(count as int);
    let bumped: u32 = if count < SM_LIMIT {
        (cell + 1) as u32
    } else {
        cell
    };
    let d = (pr * rec + 511) / 512 * 512;
    if pr == 0 {
        assert(pr * rec == 0) by (nonlinear_arith)
            requires
                pr == 0,
        ;
        if count < SM_LIMIT {
            lemma_bump_keeps_estimate(cell);
        }
    } else {
        assert(cell >= pr * 16384) by (nonlinear_arith)
            requires
                pr == cell / 16384 && cell >= 0,
        ;
        assert(512 <= d <= pr * rec + 511) by (nonlinear_arith)
            requires
                d == (pr * rec + 511) / 512 * 512 && pr >= 1 && rec >= 1,
        ;
        assert(pr * rec + 511 < pr * 16384) by (nonlinear_arith)
            requires
                pr >= 1 && 1 <= rec <= 6553,
        ;
        assert(d <= bumped);
        let stepped = vstd::wrapping::u32_specs::wrapping_sub(bumped, d as u32);
        assert(stepped <= cell - 511);
        vstd::arithmetic::div_mod::lemma_div_is_ordered(stepped as int, cell as int, 16384);
        vstd::arithmetic::div_mod::lemma_div_is_ordered(stepped as int, cell as int, 0x100000);
    }
}

/// A run of 1 observations drives the selected cell's probability estimate
/// monotonically upward, at both precisions, as long as the packed cell sits
/// below the saturation band at the very top of the 32-bit space (inside
/// that band the wrapping correction is allowed to wrap by design).
pub proof fn lemma_sm_adapt_toward_one(m: SmModel)
    requires
        0 <= m.cxt < m.cells.len(),
        m.cells[m.cxt] <= 0xFFFF0000u32,
    ensures
        m.cells[m.cxt] / 16384 <= sm_step(m, 1).cells[m.cxt] / 16384,
        m.cells[m.cxt] / 0x100000 <= sm_step(m, 1).cells[m.cxt] / 0x100000,
{
    let cell = m.cells[m.cxt];
    let count = cell % 512;
    let pr = cell / 16384;
    let rec = spec_rec(count as int);
    lemma_rec_range(count as int);
    let bumped: u32 = if count < SM_LIMIT {
        (cell + 1) as u32
    } else {
        cell
    };
    let d = (262144 - pr) * rec / 512 * 512;
    assert(pr <= 262140) by (nonlinear_arith)
        requires
            pr == cell / 16384 && cell <= 0xFFFF0000u32,
    ;
    assert(0 <= d <= (262144 - pr) * rec) by (nonlinear_arith)
        requires
            d == (262144 - pr) * rec / 512 * 512 && pr <= 262140 && rec >= 1,
    ;
    assert((262144 - pr) * rec <= (262144 - pr) * 6553) by (nonlinear_arith)
        requires
            pr <= 262140 && 1 <= rec <= 6553,
    ;
    assert(cell < (pr + 1) * 16384) by (nonlinear_arith)
        requires
            pr == cell / 16384 && cell >= 0,
    ;
    assert((pr + 1) * 16384 + (262144 - pr) * 6553 <= 0xFFFFFFF0) by (nonlinear_arith)
        requires
            0 <= pr <= 262140,
    ;
    let stepped = vstd::wrapping::u32_specs::wrapping_add(bumped, d as u32);
    assert(cell <= stepped);
    vstd::arithmetic::div_mod::lemma_div_is_ordered(cell as int, stepped as int, 16384);
    vstd::arithmetic::div_mod::lemma_div_is_ordered(cell as int, stepped as int, 0x100000);
}

/// Maps a context to an adaptive probability with a confidence count,
/// updating the cell of the previous context before each new prediction.
pub struct StateMap {
    cxt: usize,
    cxt_map: Vec<u32>,
    rec_t: Vec<u16>,
}

impl StateMap {
    pub closed spec fn model(&self) -> SmModel {
        SmModel { cxt: self.cxt as int, cells: self.cxt_map@ }
    }

    pub closed spec fn wf(&self) -> bool {
        &&& 0 <= self.cxt < self.cxt_map@.len()
        &&& self.rec_t@.len() == 512
        &&& forall|i: int| 0 <= i < 512 ==> self.rec_t@[i] == spec_rec(i)
    }

    /// All cells start at probability one half (high bit set) with count 0,
    /// and the remembered context starts at 0.
    pub fn new(n: usize) -> (s: StateMap)
        requires
            n >= 1,
        ensures
            s.wf(),
            s.model() == (SmModel { cxt: 0, cells: Seq::new(n as nat, |i| 0x80000000u32) }),
    {
        let mut cxt_map: Vec<u32> = Vec::new();
        let mut i: usize = 0;
        while i < n
            invariant
                i <= n,
                cxt_map@.len() == i,
                forall|j: int| 0 <= j < i ==> cxt_map@[j] == 0x80000000u32,
            decreases n - i,
        {
            cxt_map.push(0x80000000);
            i += 1;
        }
        let mut rec_t: Vec<u16> = Vec::new();
        let mut c: u32 = 0;
        while c < 512
            invariant
                c <= 512,
                rec_t@.len() == c,
                forall|j: int| 0 <= j < c ==> rec_t@[j] == spec_rec(j),
            decreases 512 - c,
        {
            rec_t.push((32768 / (2 * c + 5)) as u16);
            c += 1;
        }
        let s = StateMap { cxt: 0, cxt_map, rec_t };
        proof {
            assert(s.model().cells =~= Seq::new(n as nat, |i| 0x80000000u32));
        }
        s
    }

    /// Adjusts the cell chosen by the previous prediction toward `bit`.
    pub fn update(&mut self, bit: u8)
        requires
            old(self).wf(),
            bit < 2,
        ensures
            final(self).wf(),
            final(self).model() == sm_step(old(self).model(), bit as u32),
            final(self).model().cells.len() == old(self).model().cells.len(),
    {
        let cell: u32 = self.cxt_map[self.cxt];
        let count: u32 = cell % 512;
        let pr: u32 = cell / 16384;
        let bumped: u32 = if count < SM_LIMIT {
            cell + 1
        } else {
            cell
        };
        let rec: u32 = self.rec_t[count as usize] as u32;
        proof {
            assert(self.rec_t@[count as int] == spec_rec(count as int));
            assert(rec <= 6553) by (nonlinear_arith)
                requires
                    rec == 32768int / (2 * (count as int) + 5),
                    count >= 0,
            ;
            assert(pr <= 262143) by (nonlinear_arith)
                requires
                    pr == cell / 16384,
                    cell <= 0xFFFFFFFFu32,
            ;
            assert(pr * rec <= 262143 * 6553) by (nonlinear_arith)
                requires
                    0 <= pr <= 262143,
                    0 <= rec <= 6553,
            ;
            assert((262144 - pr) * rec <= 262144 * 6553) by (nonlinear_arith)
                requires
                    0 <= pr <= 262143,
                    0 <= rec <= 6553,
            ;
        }
        let stepped: u32 = if bit == 1 {
            bumped.wrapping_add((262144 - pr) * rec / 512 * 512)
        } else {
            bumped.wrapping_sub((pr * rec + 511) / 512 * 512)
        };
        self.cxt_map[self.cxt] = stepped;
        proof {
            assert(final(self).model().cells =~= sm_step(old(self).model(), bit as u32).cells);
        }
    }

    /// Learns from `bit` under the previous context, then switches to `cxt`
    /// and returns that cell's current probability estimate (its high 12
    /// bits).
    pub fn p(&mut self, bit: u8, cxt: usize) -> (r: i32)
        requires
            old(self).wf(),
            bit < 2,
            cxt < old(self).model().cells.len(),
        ensures
            final(self).wf(),
            final(self).model().cxt == cxt as int,
            final(self).model().cells == sm_step(old(self).model(), bit as u32).cells,
            final(self).model().cells.len() == old(self).model().cells.len(),
            r == final(self).model().cells[cxt as int] / 0x100000,
            0 <= r < 4096,
    {
        self.update(bit);
        self.cxt = cxt;
        (self.cxt_map[self.cxt] / 0x100000) as i32
    }
}

} // verus!
