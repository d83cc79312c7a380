use vstd::prelude::*;
use vstd::arithmetic::div_mod::{lemma_div_is_ordered, lemma_fundamental_div_mod,
    lemma_fundamental_div_mod_converse};
use vstd::arithmetic::mul::lemma_mul_nonnegative;
use crate::predictor::{PredModel, Predictor, pred_init, pred_update};

verus! {

/// How many leading bytes of the two range bounds agree. The coder can emit
/// exactly this many bytes before the range must shrink again.
pub open spec fn lead_eq(low: u32, high: u32) -> int {
    if low == high {
        4
    } else if low / 0x100 == high / 0x100 {
        3
    } else if low / 0x10000 == high / 0x10000 {
        2
    } else if low / 0x1000000 == high / 0x1000000 {
        1
    } else {
        0
    }
}

/// The split point of `[low, high]` for probability `p`: the range is divided
/// in proportion `p : 4096 - p`, with a low-order correction term that keeps
/// the split unbiased on ranges that are not multiples of 4096.
pub open spec fn spec_mid(low: u32, high: u32, p: int) -> int {
    low + ((high - low) / 4096) * p + ((high - low) % 4096) * p / 4096
}

/// The split point stays inside `[low, high)`: the upper subinterval keeps at
/// least one value and the lower one never outgrows the range.
pub proof fn lemma_split_bounds(r: int, p: int)
    requires
        1 <= r <= 0xFFFFFFFF,
        0 <= p < 4096,
    ensures
        0 <= (r / 4096) * p,
        0 <= (r % 4096) * p < 0x1000000,
        0 <= (r / 4096) * p + (r % 4096) * p / 4096 <= r - 1,
{
    assert((r % 4096) * p < 0x1000000) by (nonlinear_arith)
        requires
            0 <= r % 4096 < 4096 && 0 <= p < 4096,
    ;
    let q = r / 4096;
    let m = r % 4096;
    lemma_fundamental_div_mod(r, 4096);
    lemma_mul_nonnegative(q, p);
    lemma_mul_nonnegative(m, p);
    lemma_div_is_ordered(0, m * p, 4096);
    assert(m * p <= m * 4095) by (nonlinear_arith)
        requires
            0 <= m && 0 <= p < 4096,
    ;
    lemma_div_is_ordered(m * p, m * 4095, 4096);
    if m >= 1 {
        assert(m * 4095 == 4096 * (m - 1) + (4096 - m)) by (nonlinear_arith);
        lemma_fundamental_div_mod_converse(m * 4095, 4096, m - 1, 4096 - m);
        assert(m * 4095 / 4096 == m - 1);
    } else {
        assert(m * p == 0) by (nonlinear_arith)
            requires
                m == 0,
        ;
    }
    if q >= 1 {
        assert(q * p <= 4096 * q - q) by (nonlinear_arith)
            requires
                1 <= q && 0 <= p < 4096,
        ;
    } else {
        assert(q * p == 0) by (nonlinear_arith)
            requires
                q == 0,
        ;
    }
}

/// One renormalization shift preserves the order of the bounds and uncovers
/// one fewer matching lead byte.
proof fn lemma_renorm_step(low: u32, high: u32)
    requires
        low / 0x1000000 == high / 0x1000000,
        low <= high,
    ensures
        lead_eq(low, high) >= 1,
        (low % 0x1000000 * 256) as u32 <= (high % 0x1000000 * 256 + 255) as u32,
        lead_eq((low % 0x1000000 * 256) as u32, (high % 0x1000000 * 256 + 255) as u32) == lead_eq(
            low,
            high,
        ) - 1,
{
    assert(lead_eq(low, high) >= 1 && (low % 0x1000000 * 256) as u32 <= (high % 0x1000000 * 256
        + 255) as u32 && lead_eq(
        (low % 0x1000000 * 256) as u32,
        (high % 0x1000000 * 256 + 255) as u32,
    ) == lead_eq(low, high) - 1) by (bit_vector)
        requires
            low / 0x1000000 == high / 0x1000000 && low <= high,
    ;
}

/// Renormalization: while the top bytes of the bounds agree, that byte is
/// settled; emit it and shift both bounds left one byte, refilling `high`
/// with ones and `low` with zeros.
pub open spec fn enc_renorm(low: u32, high: u32, out: Seq<u8>) -> (u32, u32, Seq<u8>)
    decreases lead_eq(low, high),
    via enc_renorm_dec
{
    if low <= high && low / 0x1000000 == high / 0x1000000 {
        enc_renorm(
            (low % 0x1000000 * 256) as u32,
            (high % 0x1000000 * 256 + 255) as u32,
            out.push((high / 0x1000000) as u8),
        )
    } else {
        (low, high, out)
    }
}

#[via_fn]
proof fn enc_renorm_dec(low: u32, high: u32, out: Seq<u8>) {
    if low <= high && low / 0x1000000 == high / 0x1000000 {
        lemma_renorm_step(low, high);
    }
}

/// The coding range survives renormalization in order (`low <= high`) and
/// with its top bytes disagreeing again, the bytes already emitted are kept
/// as a prefix, and the flush byte appended afterward reconstructs a value
/// that lies inside the final range: a decoder window starting with these
/// bytes (zero-filled past the end) lands between the final bounds.
pub proof fn lemma_flush_reconstructs(low: u32, high: u32, out: Seq<u8>)
    requires
        low <= high,
    ensures
        ({
            let (low2, high2, out2) = enc_renorm(low, high, out);
            &&& low2 <= high2
            &&& low2 / 0x1000000 != high2 / 0x1000000
            &&& low2 <= (high2 / 0x1000000) as int * 0x1000000 <= high2
            &&& out2.len() >= out.len()
            &&& out2.subrange(0, out.len() as int) == out
        }),
    decreases lead_eq(low, high),
{
    if low / 0x1000000 == high / 0x1000000 {
        lemma_renorm_step(low, high);
        let low1 = (low % 0x1000000 * 256) as u32;
        let high1 = (high % 0x1000000 * 256 + 255) as u32;
        let out1 = out.push((high / 0x1000000) as u8);
        lemma_flush_reconstructs(low1, high1, out1);
        let (low2, high2, out2) = enc_renorm(low, high, out);
        assert(out2.subrange(0, out1.len() as int).subrange(0, out.len() as int)
            == out2.subrange(0, out.len() as int));
        assert(out2.subrange(0, out.len() as int) =~= out);
    } else {
        let b = (high / 0x1000000) as int;
        lemma_fundamental_div_mod(high as int, 0x1000000);
        lemma_fundamental_div_mod(low as int, 0x1000000);
        lemma_div_is_ordered(low as int, high as int, 0x1000000);
        assert(low / 0x1000000 < high / 0x1000000);
        let (low2, high2, out2) = enc_renorm(low, high, out);
        assert(out2.subrange(0, out.len() as int) =~= out);
    }
}

/// The mathematical state of an `Encoder`: the predictor, the coding range
/// and the coded bytes produced so far.
#[verifier::ext_equal]
pub ghost struct EncModel {
    pub pred: PredModel,
    pub low: u32,
    pub high: u32,
    pub out: Seq<u8>,
}

/// A fresh encoder: fresh predictor, full range, nothing emitted.
pub open spec fn enc_init() -> EncModel {
    EncModel { pred: pred_init(), low: 0, high: 0xFFFFFFFF, out: Seq::empty() }
}

/// One coded bit: split the range at the predictor's probability, keep the
/// subinterval chosen by `bit` (the lower part of the split belongs to bit 1),
/// drive the predictor, then renormalize.
#[verifier::opaque]
pub open spec fn enc_encode(m: EncModel, bit: u32) -> EncModel {
    let mid = spec_mid(m.low, m.high, m.pred.pr);
    let low1: u32 = if bit == 1 {
        m.low
    } else {
        (mid + 1) as u32
    };
    let high1: u32 = if bit == 1 {
        mid as u32
    } else {
        m.high
    };
    let pred1 = pred_update(m.pred, bit);
    let (low2, high2, out2) = enc_renorm(low1, high1, m.out);
    EncModel { pred: pred1, low: low2, high: high2, out: out2 }
}

/// Drain the settled bytes, then emit the top byte of `high`: the decoder's
/// starting window always finds enough bytes to reconstruct a value inside
/// the final range.
pub open spec fn enc_flush(m: EncModel) -> Seq<u8> {
    let (low2, high2, out2) = enc_renorm(m.low, m.high, m.out);
    out2.push((high2 / 0x1000000) as u8)
}

/// The arithmetic encoder: consumes probability-weighted bits and produces
/// coded bytes through carryless byte-at-a-time renormalization.
pub struct Encoder {
    predictor: Predictor,
    high: u32,
    low: u32,
    out: Vec<u8>,
}

impl Encoder {
    pub closed spec fn model(&self) -> EncModel {
        EncModel { pred: self.predictor.model(), low: self.low, high: self.high, out: self.out@ }
    }

    /// The coding range never inverts, and outside of renormalization its
    /// bounds always disagree in their top byte.
    pub closed spec fn wf(&self) -> bool {
        &&& self.predictor.wf()
        &&& self.low <= self.high
        &&& self.low / 0x1000000 != self.high / 0x1000000
    }

    pub fn new() -> (e: Encoder)
        ensures
            e.wf(),
            e.model() == enc_init(),
    {
        let e = Encoder { predictor: Predictor::new(), high: 0xFFFFFFFF, low: 0, out: Vec::new() };
        proof {
            assert(e.model() =~~= enc_init());
        }
        e
    }

    /// Codes one bit at the predictor's current probability and feeds the bit
    /// back into the predictor. `low <= high` holds again when it returns.
    #[verifier::rlimit(100)]
    pub fn encode(&mut self, bit: u8)
        requires
            old(self).wf(),
            bit < 2,
        ensures
            final(self).wf(),
            final(self).model() == enc_encode(old(self).model(), bit as u32),
            final(self).model().low <= final(self).model().high,
    {
        let p: u32 = self.predictor.p() as u32;
        let range: u32 = self.high - self.low;
        proof {
            lemma_split_bounds(range as int, p as int);
        }
        let mid: u32 = self.low + (range / 4096) * p + (range % 4096) * p / 4096;
        if bit == 1 {
            self.high = mid;
        } else {
            self.low = mid + 1;
        }
        self.predictor.update(bit);
        let ghost low1 = self.low;
        let ghost high1 = self.high;
        let ghost out1 = self.out@;

        while self.low / 0x1000000 == self.high / 0x1000000
            invariant
                self.low <= self.high,
                self.predictor.wf(),
                self.predictor.model() == pred_update(old(self).model().pred, bit as u32),
                enc_renorm(self.low, self.high, self.out@) == enc_renorm(low1, high1, out1),
            decreases lead_eq(self.low, self.high),
        {
            proof {
                lemma_renorm_step(self.low, self.high);
            }
            let byte: u8 = (self.high / 0x1000000) as u8;
            self.out.push(byte);
            self.high = self.high % 0x1000000 * 256 + 255;
            self.low = self.low % 0x1000000 * 256;
        }
        proof {
            reveal(enc_encode);
            assert(final(self).model() =~~= enc_encode(old(self).model(), bit as u32));
        }
    }

    /// Emits the one byte that pins the decoder's starting value inside the
    /// final range.
    #[verifier::rlimit(100)]
    pub fn flush(&mut self)
        requires
            old(self).wf(),
        ensures
            final(self).out_bytes() == enc_flush(old(self).model()),
    {
        while self.low / 0x1000000 == self.high / 0x1000000
            invariant
                self.low <= self.high,
                enc_renorm(self.low, self.high, self.out@) == enc_renorm(
                    old(self).low,
                    old(self).high,
                    old(self).out@,
                ),
            decreases lead_eq(self.low, self.high),
        {
            proof {
                lemma_renorm_step(self.low, self.high);
            }
            let byte: u8 = (self.high / 0x1000000) as u8;
            self.out.push(byte);
            self.high = self.high % 0x1000000 * 256 + 255;
            self.low = self.low % 0x1000000 * 256;
        }
        let byte: u8 = (self.high / 0x1000000) as u8;
        self.out.push(byte);
    }

    /// The coded bytes produced so far.
    pub closed spec fn out_bytes(&self) -> Seq<u8> {
        self.out@
    }

    /// Hands the coded bytes out.
    pub fn into_out(self) -> (r: Vec<u8>)
        ensures
            r@ == self.out_bytes(),
    {
        self.out
    }
}

/// The mathematical state of a `Decoder`: the predictor, the coding range,
/// the sliding 32-bit window `x` over the coded stream, and the read
/// position.
#[verifier::ext_equal]
pub ghost struct DecModel {
    pub pred: PredModel,
    pub low: u32,
    pub high: u32,
    pub x: u32,
    pub pos: int,
}

/// Reading one coded byte: the byte at `pos`, or 0 once the stream is
/// exhausted (the coder reads a few bytes past its own output).
pub open spec fn spec_read(input: Seq<u8>, pos: int) -> (u8, int) {
    if 0 <= pos < input.len() {
        (input[pos], pos + 1)
    } else {
        (0u8, pos)
    }
}

/// Decoder renormalization: mirrors the encoder's shifts and refills the low
/// byte of the window from the coded stream.
pub open spec fn dec_renorm(input: Seq<u8>, low: u32, high: u32, x: u32, pos: int) -> (
    u32,
    u32,
    u32,
    int,
)
    decreases lead_eq(low, high),
    via dec_renorm_dec
{
    if low <= high && low / 0x1000000 == high / 0x1000000 {
        let (b, pos1) = spec_read(input, pos);
        dec_renorm(
            input,
            (low % 0x1000000 * 256) as u32,
            (high % 0x1000000 * 256 + 255) as u32,
            (x % 0x1000000 * 256 + b) as u32,
            pos1,
        )
    } else {
        (low, high, x, pos)
    }
}

#[via_fn]
proof fn dec_renorm_dec(input: Seq<u8>, low: u32, high: u32, x: u32, pos: int) {
    if low <= high && low / 0x1000000 == high / 0x1000000 {
        lemma_renorm_step(low, high);
    }
}

/// A fresh decoder: fresh predictor, full range, window filled with the first
/// four coded bytes.
pub open spec fn dec_init(input: Seq<u8>) -> DecModel {
    let (b0, p0) = spec_read(input, 0);
    let (b1, p1) = spec_read(input, p0);
    let (b2, p2) = spec_read(input, p1);
    let (b3, p3) = spec_read(input, p2);
    DecModel {
        pred: pred_init(),
        low: 0,
        high: 0xFFFFFFFF,
        x: (b0 as u32 * 0x1000000 + b1 as u32 * 0x10000 + b2 as u32 * 0x100 + b3 as u32) as u32,
        pos: p3,
    }
}

/// One decoded bit: split the range exactly as the encoder does, recover the
/// bit from which side of the split the window lies on, drive the predictor
/// with it, then renormalize.
#[verifier::opaque]
pub open spec fn dec_decode(input: Seq<u8>, m: DecModel) -> (DecModel, u8) {
    let mid = spec_mid(m.low, m.high, m.pred.pr);
    let bit: u8 = if m.x <= mid {
        1
    } else {
        0
    };
    let low1: u32 = if bit == 1 {
        m.low
    } else {
        (mid + 1) as u32
    };
    let high1: u32 = if bit == 1 {
        mid as u32
    } else {
        m.high
    };
    let pred1 = pred_update(m.pred, bit as u32);
    let (low2, high2, x2, pos2) = dec_renorm(input, low1, high1, m.x, m.pos);
    (DecModel { pred: pred1, low: low2, high: high2, x: x2, pos: pos2 }, bit)
}

/// The arithmetic decoder: mirrors the encoder's range bit for bit and
/// recovers each coded bit from the window value.
pub struct Decoder {
    predictor: Predictor,
    high: u32,
    low: u32,
    x: u32,
    input: Vec<u8>,
    pos: usize,
}

impl Decoder {
    pub closed spec fn model(&self) -> DecModel {
        DecModel {
            pred: self.predictor.model(),
            low: self.low,
            high: self.high,
            x: self.x,
            pos: self.pos as int,
        }
    }

    /// The coded stream this decoder reads.
    pub closed spec fn input_bytes(&self) -> Seq<u8> {
        self.input@
    }

    /// The range never inverts, its bounds disagree in their top byte outside
    /// of renormalization, and the read position never passes the end.
    pub closed spec fn wf(&self) -> bool {
        &&& self.predictor.wf()
        &&& self.low <= self.high
        &&& self.low / 0x1000000 != self.high / 0x1000000
        &&& self.pos <= self.input@.len()
    }

    fn read_byte(&mut self) -> (b: u8)
        requires
            old(self).pos <= old(self).input_bytes().len(),
        ensures
            b == spec_read(old(self).input_bytes(), old(self).model().pos).0,
            final(self).model().pos == spec_read(old(self).input_bytes(), old(self).model().pos).1,
            final(self).pos <= final(self).input_bytes().len(),
            final(self).input_bytes() == old(self).input_bytes(),
            final(self).predictor == old(self).predictor,
            final(self).low == old(self).low,
            final(self).high == old(self).high,
            final(self).x == old(self).x,
    {
        if self.pos < self.input.len() {
            let b = self.input[self.pos];
            self.pos = self.pos + 1;
            b
        } else {
            0
        }
    }

    pub fn new(input: Vec<u8>) -> (d: Decoder)
        ensures
            d.wf(),
            d.input_bytes() == input@,
            d.model() == dec_init(input@),
    {
        let mut d = Decoder {
            predictor: Predictor::new(),
            high: 0xFFFFFFFF,
            low: 0,
            x: 0,
            input,
            pos: 0,
        };
        let b0 = d.read_byte();
        d.x = d.x * 256 + b0 as u32;
        let b1 = d.read_byte();
        d.x = d.x * 256 + b1 as u32;
        let b2 = d.read_byte();
        d.x = d.x * 256 + b2 as u32;
        let b3 = d.read_byte();
        d.x = d.x * 256 + b3 as u32;
        proof {
            assert(d.model() =~~= dec_init(input@));
        }
        d
    }

    /// Recovers one bit and replays the encoder's range narrowing for it.
    /// `low <= high` holds again when it returns.
    #[verifier::rlimit(100)]
    pub fn decode(&mut self) -> (bit: u8)
        requires
            old(self).wf(),
        ensures
            final(self).wf(),
            final(self).input_bytes() == old(self).input_bytes(),
            final(self).model() == dec_decode(old(self).input_bytes(), old(self).model()).0,
            bit == dec_decode(old(self).input_bytes(), old(self).model()).1,
            bit < 2,
            final(self).model().low <= final(self).model().high,
    {
        let p: u32 = self.predictor.p() as u32;
        let range: u32 = self.high - self.low;
        proof {
            lemma_split_bounds(range as int, p as int);
        }
        let mid: u32 = self.low + (range / 4096) * p + (range % 4096) * p / 4096;
        let bit: u8;
        if self.x <= mid {
            bit = 1;
            self.high = mid;
        } else {
            bit = 0;
            self.low = mid + 1;
        }
        self.predictor.update(bit);
        let ghost low1 = self.low;
        let ghost high1 = self.high;
        let ghost x1 = self.x;
        let ghost pos1 = self.pos as int;

        while self.low / 0x1000000 == self.high / 0x1000000
            invariant
                self.low <= self.high,
                self.pos <= self.input@.len(),
                self.input@ == old(self).input_bytes(),
                self.predictor.wf(),
                self.predictor.model() == pred_update(old(self).model().pred, bit as u32),
                dec_renorm(self.input@, self.low, self.high, self.x, self.pos as int)
                    == dec_renorm(old(self).input_bytes(), low1, high1, x1, pos1),
            decreases lead_eq(self.low, self.high),
        {
            proof {
                lemma_renorm_step(self.low, self.high);
            }
            let b = self.read_byte();
            self.high = self.high % 0x1000000 * 256 + 255;
            self.low = self.low % 0x1000000 * 256;
            self.x = self.x % 0x1000000 * 256 + b as u32;
        }
        proof {
            reveal(dec_decode);
            assert(final(self).model() =~~= dec_decode(
                old(self).input_bytes(),
                old(self).model(),
            ).0);
        }
        bit
    }
}

/// The byte of a coded stream at position `k`, or 0 past the end: the window
/// the decoder slides over the stream is zero-filled once the bytes run out.
pub open spec fn byte_at(input: Seq<u8>, k: int) -> u8 {
    if 0 <= k < input.len() {
        input[k]
    } else {
        0
    }
}

/// The 32-bit big-endian window of the coded stream starting at position `k`.
pub open spec fn win(input: Seq<u8>, k: int) -> u32 {
    (byte_at(input, k) as u32 * 0x1000000 + byte_at(input, k + 1) as u32 * 0x10000 + byte_at(
        input,
        k + 2,
    ) as u32 * 0x100 + byte_at(input, k + 3) as u32) as u32
}

/// Where the read position stands once the window at `k` has been filled: four
/// bytes ahead, saturating at the end of the stream.
pub open spec fn dpos(input: Seq<u8>, k: int) -> int {
    if k + 4 <= input.len() {
        k + 4
    } else {
        input.len() as int
    }
}

/// Arithmetic of a big-endian window: its top byte, the shift that drops the
/// top byte and pulls in the next one, and its bottom byte.
proof fn lemma_win_algebra(b0: u8, b1: u8, b2: u8, b3: u8, b4: u8)
    ensures
        ({
            let v = (b0 as u32 * 0x1000000 + b1 as u32 * 0x10000 + b2 as u32 * 0x100
                + b3 as u32) as u32;
            let v1 = (b1 as u32 * 0x1000000 + b2 as u32 * 0x10000 + b3 as u32 * 0x100
                + b4 as u32) as u32;
            &&& v / 0x1000000 == b0 as u32
            &&& v % 0x1000000 == v1 / 256
            &&& (v % 0x1000000 * 256 + b4 as u32) as u32 == v1
            &&& v1 % 256 == b4 as u32
        }),
{
    let v = (b0 as u32 * 0x1000000 + b1 as u32 * 0x10000 + b2 as u32 * 0x100 + b3 as u32) as u32;
    let v1 = (b1 as u32 * 0x1000000 + b2 as u32 * 0x10000 + b3 as u32 * 0x100 + b4 as u32) as u32;
    assert(v / 0x1000000 == b0 as u32 && v % 0x1000000 == v1 / 256 && (v % 0x1000000 * 256
        + b4 as u32) as u32 == v1 && v1 % 256 == b4 as u32) by (bit_vector)
        requires
            v == (b0 as u32 * 0x1000000 + b1 as u32 * 0x10000 + b2 as u32 * 0x100 + b3 as u32)
                as u32 && v1 == (b1 as u32 * 0x1000000 + b2 as u32 * 0x10000 + b3 as u32 * 0x100
                + b4 as u32) as u32,
    ;
}

/// The decoder state that tracks an encoder state over the finished stream
/// `full`: same predictor and range, the window read at the encoder's output
/// position.
pub open spec fn dec_of(full: Seq<u8>, m: EncModel) -> DecModel {
    DecModel {
        pred: m.pred,
        low: m.low,
        high: m.high,
        x: win(full, m.out.len() as int),
        pos: dpos(full, m.out.len() as int),
    }
}

/// The encoder states the coding loop moves through: range in order, its top
/// bytes in disagreement, and the predictor's probability on the 4096-point
/// scale.
pub open spec fn enc_wf(m: EncModel) -> bool {
    &&& m.low <= m.high
    &&& m.low / 0x1000000 != m.high / 0x1000000
    &&& 0 <= m.pred.pr <= 4095
}

/// One coded bit keeps the encoder state well formed and only appends to its
/// output.
pub proof fn lemma_enc_encode_props(m: EncModel, bit: u32)
    requires
        enc_wf(m),
    ensures
        enc_wf(enc_encode(m, bit)),
        enc_encode(m, bit).out.len() >= m.out.len(),
        enc_encode(m, bit).out.subrange(0, m.out.len() as int) == m.out,
{
    reveal(enc_encode);
    assert(m.low < m.high);
    lemma_split_bounds((m.high - m.low) as int, m.pred.pr);
    let mid = spec_mid(m.low, m.high, m.pred.pr);
    let low1: u32 = if bit == 1 {
        m.low
    } else {
        (mid + 1) as u32
    };
    let high1: u32 = if bit == 1 {
        mid as u32
    } else {
        m.high
    };
    lemma_flush_reconstructs(low1, high1, m.out);
    crate::predictor::lemma_pred_pr_range(m.pred, bit);
}

/// Backward range propagation coupled with forward decoder simulation through
/// one renormalization: if the finished stream's window at the encoder's
/// final output position lies in the final range, then the window at the
/// starting position already lay in the starting range, and the decoder's
/// renormalization from that window tracks the encoder's exactly.
pub proof fn lemma_renorm_sim(full: Seq<u8>, low1: u32, high1: u32, k: int)
    requires
        low1 <= high1,
        0 <= k <= full.len(),
        enc_renorm(low1, high1, full.take(k)).2.len() <= full.len(),
        enc_renorm(low1, high1, full.take(k)).2 == full.take(
            enc_renorm(low1, high1, full.take(k)).2.len() as int,
        ),
        enc_renorm(low1, high1, full.take(k)).0 <= win(
            full,
            enc_renorm(low1, high1, full.take(k)).2.len() as int,
        ),
        win(full, enc_renorm(low1, high1, full.take(k)).2.len() as int) <= enc_renorm(
            low1,
            high1,
            full.take(k),
        ).1,
    ensures
        low1 <= win(full, k) <= high1,
        dec_renorm(full, low1, high1, win(full, k), dpos(full, k)) == (
            enc_renorm(low1, high1, full.take(k)).0,
            enc_renorm(low1, high1, full.take(k)).1,
            win(full, enc_renorm(low1, high1, full.take(k)).2.len() as int),
            dpos(full, enc_renorm(low1, high1, full.take(k)).2.len() as int),
        ),
    decreases lead_eq(low1, high1),
{
    if low1 / 0x1000000 == high1 / 0x1000000 {
        lemma_renorm_step(low1, high1);
        let c = (high1 / 0x1000000) as u8;
        let low2 = (low1 % 0x1000000 * 256) as u32;
        let high2 = (high1 % 0x1000000 * 256 + 255) as u32;
        let out2 = enc_renorm(low1, high1, full.take(k)).2;
        lemma_flush_reconstructs(low2, high2, full.take(k).push(c));
        assert(out2.len() >= k + 1);
        assert(out2.subrange(0, k + 1) == full.take(k).push(c));
        assert(k < full.len());
        assert(out2.subrange(0, k + 1)[k] == c);
        assert(full.take(out2.len() as int)[k] == c);
        assert(byte_at(full, k) == c);
        assert(full.take(k).push(c) =~= full.take(k + 1));
        lemma_renorm_sim(full, low2, high2, k + 1);
        lemma_win_algebra(
            byte_at(full, k),
            byte_at(full, k + 1),
            byte_at(full, k + 2),
            byte_at(full, k + 3),
            byte_at(full, k + 4),
        );
        let v = win(full, k);
        let v1 = win(full, k + 1);
        assert(low1 <= v) by {
            lemma_fundamental_div_mod(low1 as int, 0x1000000);
            lemma_div_is_ordered(low2 as int, v1 as int, 256);
            assert((low1 % 0x1000000) as int * 256 / 256 == low1 % 0x1000000) by (nonlinear_arith);
        }
        assert(v <= high1) by {
            lemma_fundamental_div_mod(high1 as int, 0x1000000);
            lemma_div_is_ordered(v1 as int, high2 as int, 256);
            assert(((high1 % 0x1000000) as int * 256 + 255) / 256 == high1 % 0x1000000)
                by (nonlinear_arith);
        }
        assert(spec_read(full, dpos(full, k)).0 == byte_at(full, k + 4));
        assert(spec_read(full, dpos(full, k)).1 == dpos(full, k + 1));
        assert((v % 0x1000000 * 256 + spec_read(full, dpos(full, k)).0) as u32 == v1);
    } else {
        assert(full.take(k).len() == k);
        assert(dec_renorm(full, low1, high1, win(full, k), dpos(full, k)) == (
            low1,
            high1,
            win(full, k),
            dpos(full, k),
        ));
    }
}

/// One coded bit, seen from both ends of the stream: if the finished stream's
/// window tracks the encoder after the bit, it already tracked it before, and
/// the decoder reading that window recovers exactly the bit that was encoded.
pub proof fn lemma_bit_sim(full: Seq<u8>, m: EncModel, bit: u32)
    requires
        enc_wf(m),
        bit < 2,
        m.out.len() <= full.len(),
        m.out == full.take(m.out.len() as int),
        enc_encode(m, bit).out.len() <= full.len(),
        enc_encode(m, bit).out == full.take(enc_encode(m, bit).out.len() as int),
        enc_encode(m, bit).low <= win(full, enc_encode(m, bit).out.len() as int),
        win(full, enc_encode(m, bit).out.len() as int) <= enc_encode(m, bit).high,
    ensures
        m.low <= win(full, m.out.len() as int) <= m.high,
        dec_decode(full, dec_of(full, m)) == (dec_of(full, enc_encode(m, bit)), bit as u8),
{
    reveal(enc_encode);
    reveal(dec_decode);
    assert(m.low < m.high);
    lemma_split_bounds((m.high - m.low) as int, m.pred.pr);
    let mid = spec_mid(m.low, m.high, m.pred.pr);
    let low1: u32 = if bit == 1 {
        m.low
    } else {
        (mid + 1) as u32
    };
    let high1: u32 = if bit == 1 {
        mid as u32
    } else {
        m.high
    };
    let k = m.out.len() as int;
    lemma_renorm_sim(full, low1, high1, k);
    let x = win(full, k);
    assert(bit == 1 ==> x <= mid);
    assert(bit == 0 ==> x > mid);
    assert(dec_decode(full, dec_of(full, m)).1 == bit as u8);
    assert(dec_decode(full, dec_of(full, m)).0 =~~= dec_of(full, enc_encode(m, bit)));
}

} // verus!
