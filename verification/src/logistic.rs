use vstd::prelude::*;

verus! {

/// 33 sample points of the logistic curve on a 4096-point probability scale,
/// one for every 128th value of the stretched domain [-2048, 2048].
/// The values are part of the compressed-stream format.
pub const SQ_TAB: [u16; 33] = [
    1, 2, 3, 6, 10, 16, 27, 45, 73, 120, 194, 310, 488, 747, 1101, 1546, 2047, 2549, 2994, 3348,
    3607, 3785, 3901, 3975, 4022, 4050, 4068, 4079, 4085, 4089, 4092, 4093, 4094,
];

/// The squash map: a stretched (logit-domain) value `d` taken to a probability
/// in [0, 4095] by piecewise-linear interpolation of `SQ_TAB` with 7-bit
/// sub-resolution; inputs outside [-2047, 2047] saturate to the extremes.
pub open spec fn spec_squash(d: int) -> int {
    if d > 2047 {
        4095
    } else if d < -2047 {
        0
    } else {
        let e = d + 2048;
        let w = e % 128;
        let q = e / 128;
        (SQ_TAB[q] * (128 - w) + SQ_TAB[q + 1] * w + 64) / 128
    }
}

proof fn lemma_sq_tab_bounded()
    ensures
        forall|i: int| 0 <= i < 33 ==> 1 <= #[trigger] SQ_TAB[i] <= 4094,
{
}

/// The squash result always lies in the 12-bit probability range.
pub proof fn lemma_spec_squash_bounds(d: int)
    ensures
        0 <= spec_squash(d) <= 4095,
{
    lemma_sq_tab_bounded();
    if -2047 <= d <= 2047 {
        let e = d + 2048;
        let w = e % 128;
        let q = e / 128;
        assert(0 <= w < 128 && 0 <= q < 32) by (nonlinear_arith)
            requires
                1 <= e <= 4095 && w == e % 128 && q == e / 128,
        ;
        let a = SQ_TAB[q] as int;
        let b = SQ_TAB[q + 1] as int;
        assert(a * (128 - w) + b * w + 64 <= 4094 * 128 + 64) by (nonlinear_arith)
            requires
                1 <= a <= 4094 && 1 <= b <= 4094 && 0 <= w < 128,
        ;
        assert(a * (128 - w) + b * w + 64 >= 0) by (nonlinear_arith)
            requires
                1 <= a && 1 <= b && 0 <= w < 128,
        ;
    }
}

/// Maps a stretched value to the linear probability domain.
pub fn squash(d: i32) -> (r: i32)
    ensures
        r == spec_squash(d as int),
        0 <= r <= 4095,
{
    proof {
        lemma_spec_squash_bounds(d as int);
    }
    if d > 2047 {
        return 4095;
    }
    if d < -2047 {
        return 0;
    }
    let e: u32 = (d + 2048) as u32;
    let w: u32 = e % 128;
    let q: usize = (e / 128) as usize;
    proof {
        lemma_sq_tab_bounded();
        assert(0 <= w < 128 && 0 <= q < 32) by (nonlinear_arith)
            requires
                1 <= e <= 4095 && w == e % 128 && q == e / 128,
        ;
        assert(SQ_TAB[q as int] * (128 - w) + SQ_TAB[q as int + 1] * w + 64 <= 4094 * 128 + 64)
            by (nonlinear_arith)
            requires
                1 <= SQ_TAB[q as int] <= 4094 && 1 <= SQ_TAB[q as int + 1] <= 4094 && 0 <= w < 128,
        ;
    }
    (((SQ_TAB[q] as u32) * (128 - w) + (SQ_TAB[q + 1] as u32) * w + 64) / 128) as i32
}

/// The first stretched value whose squash reaches `p`, scanning upward from
/// `x`; saturates at the top of the stretched domain.
pub open spec fn stretch_from(p: int, x: int) -> int
    decreases 2047 - x,
{
    if x >= 2047 {
        2047
    } else if spec_squash(x) >= p {
        x
    } else {
        stretch_from(p, x + 1)
    }
}

/// The stretch map: the monotone inverse of `spec_squash`, i.e. the least
/// stretched value whose squash reaches `p`; the discontinuity at `p == 4095`
/// is pinned to 2047.
pub open spec fn spec_stretch(p: int) -> int {
    if p >= 4095 {
        2047
    } else {
        stretch_from(p, -2047)
    }
}

proof fn lemma_stretch_from_bounds(p: int, x: int)
    requires
        -2047 <= x <= 2047,
    ensures
        x <= stretch_from(p, x) <= 2047,
    decreases 2047 - x,
{
    if x < 2047 && spec_squash(x) < p {
        lemma_stretch_from_bounds(p, x + 1);
    }
}

/// The stretch of any probability lies in the stretched domain.
pub proof fn lemma_spec_stretch_bounds(p: int)
    ensures
        -2047 <= spec_stretch(p) <= 2047,
{
    if p < 4095 {
        lemma_stretch_from_bounds(p, -2047);
    }
}

proof fn lemma_stretch_from_skip(p: int, s: int, x: int)
    requires
        -2047 <= s <= x <= 2047,
        forall|y: int| s <= y < x ==> spec_squash(y) < p,
    ensures
        stretch_from(p, s) == stretch_from(p, x),
    decreases x - s,
{
    if s < x {
        lemma_stretch_from_skip(p, s + 1, x);
    }
}

/// The precomputed inverse of `squash`: a 4096-entry lookup from a linear
/// probability to its stretched value.
pub struct Stretch {
    tbl: Vec<i16>,
}

impl Stretch {
    /// The table inverts `spec_squash` entry for entry.
    pub closed spec fn wf(&self) -> bool {
        &&& self.tbl@.len() == 4096
        &&& forall|p: int| 0 <= p < 4096 ==> self.tbl@[p] == spec_stretch(p)
    }

    /// Builds the inverse table by sweeping the stretched domain upward once.
    pub fn new() -> (s: Stretch)
        ensures
            s.wf(),
    {
        let mut tbl: Vec<i16> = Vec::new();
        let mut x: i32 = -2047;
        while tbl.len() < 4095
            invariant
                -2047 <= x <= 2047,
                tbl@.len() <= 4095,
                forall|p: int| 0 <= p < tbl@.len() ==> tbl@[p] == spec_stretch(p),
                forall|y: int| -2047 <= y < x ==> spec_squash(y) < tbl@.len(),
            decreases 4095 - tbl@.len(),
        {
            let p = tbl.len();
            loop
                invariant
                    -2047 <= x <= 2047,
                    p < 4095,
                    forall|y: int| -2047 <= y < x ==> spec_squash(y) < p,
                ensures
                    -2047 <= x <= 2047,
                    forall|y: int| -2047 <= y < x ==> spec_squash(y) < p,
                    spec_squash(x as int) >= p || x == 2047,
                decreases 2047 - x,
            {
                if x >= 2047 {
                    break ;
                }
                let s = squash(x);
                if s >= p as i32 {
                    break ;
                }
                x += 1;
            }
            proof {
                lemma_stretch_from_skip(p as int, -2047, x as int);
            }
            tbl.push(x as i16);
            proof {
                assert(stretch_from(p as int, x as int) == x);
                assert(tbl@[p as int] == spec_stretch(p as int));
            }
        }
        tbl.push(2047);
        Stretch { tbl }
    }

    /// Looks up the stretched value of probability `p`.
    pub fn stretch(&self, p: i32) -> (r: i32)
        requires
            self.wf(),
            0 <= p < 4096,
        ensures
            r == spec_stretch(p as int),
            -2047 <= r <= 2047,
    {
        proof {
            lemma_spec_stretch_bounds(p as int);
        }
        self.tbl[p as usize] as i32
    }
}

} // verus!
