use vstd::prelude::*;
use crate::coder::{DecModel, Decoder, EncModel, Encoder, byte_at, dec_decode, dec_init, dec_of,
    enc_encode, enc_flush, enc_init, enc_renorm, enc_wf, lemma_bit_sim, lemma_enc_encode_props,
    lemma_flush_reconstructs, win};

verus! {

/// One framed input byte: a continuation bit 1, then the byte's eight data
/// bits, most significant first.
pub open spec fn enc_byte(m: EncModel, b: u8) -> EncModel {
    let m0 = enc_encode(m, 1);
    let m1 = enc_encode(m0, ((b / 128) % 2) as u32);
    let m2 = enc_encode(m1, ((b / 64) % 2) as u32);
    let m3 = enc_encode(m2, ((b / 32) % 2) as u32);
    let m4 = enc_encode(m3, ((b / 16) % 2) as u32);
    let m5 = enc_encode(m4, ((b / 8) % 2) as u32);
    let m6 = enc_encode(m5, ((b / 4) % 2) as u32);
    let m7 = enc_encode(m6, ((b / 2) % 2) as u32);
    enc_encode(m7, (b % 2) as u32)
}

/// The encoder state after coding the first `i` bytes of `s`, starting from a
/// fresh encoder.
pub open spec fn enc_upto(s: Seq<u8>, i: int) -> EncModel
    decreases i,
{
    if i <= 0 {
        enc_init()
    } else {
        enc_byte(enc_upto(s, i - 1), s[i - 1])
    }
}

/// The compressed form of `s`: every byte framed with a continuation bit 1, a
/// final continuation bit 0 as the end-of-stream marker, then the coder's
/// flush byte. Compression is a function of the input bytes alone: two runs
/// on the same input give the same output.
pub open spec fn spec_compress(s: Seq<u8>) -> Seq<u8> {
    enc_flush(enc_encode(enc_upto(s, s.len() as int), 0))
}

/// One framed output byte: eight decoded bits folded into a leading-1
/// accumulator, most significant first.
pub open spec fn dec_byte(input: Seq<u8>, m: DecModel) -> (DecModel, u8) {
    let (m1, b1) = dec_decode(input, m);
    let (m2, b2) = dec_decode(input, m1);
    let (m3, b3) = dec_decode(input, m2);
    let (m4, b4) = dec_decode(input, m3);
    let (m5, b5) = dec_decode(input, m4);
    let (m6, b6) = dec_decode(input, m5);
    let (m7, b7) = dec_decode(input, m6);
    let (m8, b8) = dec_decode(input, m7);
    let c = ((((((((1 * 2 + b1) * 2 + b2) * 2 + b3) * 2 + b4) * 2 + b5) * 2 + b6) * 2 + b7) * 2
        + b8) - 256;
    (m8, c as u8)
}

/// The bytes recovered by running the decoder until the continuation bit says
/// stop, for at most `fuel` output bytes.
pub open spec fn dec_loop(input: Seq<u8>, m: DecModel, out: Seq<u8>, fuel: nat) -> Seq<u8>
    decreases fuel,
{
    if fuel == 0 {
        out
    } else {
        let (m1, bit) = dec_decode(input, m);
        if bit != 1 {
            out
        } else {
            let (m2, b) = dec_byte(input, m1);
            dec_loop(input, m2, out.push(b), (fuel - 1) as nat)
        }
    }
}

/// The decompressed form of a coded stream: decoded bytes until the model
/// signals end of stream. The byte budget is astronomically large rather
/// than unbounded so that decoding a corrupted stream cannot run forever;
/// a stream produced by `spec_compress` signals its end long before the
/// budget runs out.
pub open spec fn spec_decompress(input: Seq<u8>) -> Seq<u8> {
    dec_loop(input, dec_init(input), Seq::empty(), 0xFFFFFFFFFFFFFFFF as nat)
}

/// Compresses `input`: its bytes bit by bit under the adaptive model, the
/// end-of-stream marker, then the coder's flush byte.
#[verifier::rlimit(100)]
pub fn compress(input: &Vec<u8>) -> (out: Vec<u8>)
    ensures
        out@ == spec_compress(input@),
{
    let mut enc = Encoder::new();
    let n = input.len();
    let mut i: usize = 0;
    while i < n
        invariant
            i <= n,
            n == input@.len(),
            enc.wf(),
            enc.model() == enc_upto(input@, i as int),
        decreases n - i,
    {
        let b = input[i];
        enc.encode(1);
        enc.encode((b / 128) % 2);
        enc.encode((b / 64) % 2);
        enc.encode((b / 32) % 2);
        enc.encode((b / 16) % 2);
        enc.encode((b / 8) % 2);
        enc.encode((b / 4) % 2);
        enc.encode((b / 2) % 2);
        enc.encode(b % 2);
        i = i + 1;
        proof {
            assert(enc.model() == enc_upto(input@, i as int));
        }
    }
    enc.encode(0);
    enc.flush();
    enc.into_out()
}

/// Decompresses a stream produced by `compress`, recovering the original
/// bytes exactly; on a truncated or corrupted stream the output is whatever
/// the desynchronized model yields, as the format carries no integrity check.
#[verifier::rlimit(100)]
pub fn decompress(input: &Vec<u8>) -> (out: Vec<u8>)
    ensures
        out@ == spec_decompress(input@),
{
    let mut buf: Vec<u8> = Vec::new();
    let mut i: usize = 0;
    while i < input.len()
        invariant
            i <= input@.len(),
            buf@.len() == i,
            forall|j: int| 0 <= j < i ==> buf@[j] == input@[j],
        decreases input@.len() - i,
    {
        buf.push(input[i]);
        i = i + 1;
    }
    proof {
        assert(buf@ =~= input@);
    }
    let mut dec = Decoder::new(buf);
    let mut out: Vec<u8> = Vec::new();
    let mut fuel: u64 = 0xFFFFFFFFFFFFFFFF;
    loop
        invariant_except_break
            spec_decompress(input@) == dec_loop(input@, dec.model(), out@, fuel as nat),
        invariant
            dec.wf(),
            dec.input_bytes() == input@,
        ensures
            out@ == spec_decompress(input@),
        decreases fuel,
    {
        if fuel == 0 {
            break ;
        }
        let ghost m0 = dec.model();
        let bit = dec.decode();
        if bit != 1 {
            proof {
                assert(dec_loop(input@, m0, out@, fuel as nat) == out@);
            }
            break ;
        }
        let mut c: u32 = 1;
        c = 2 * c + dec.decode() as u32;
        c = 2 * c + dec.decode() as u32;
        c = 2 * c + dec.decode() as u32;
        c = 2 * c + dec.decode() as u32;
        c = 2 * c + dec.decode() as u32;
        c = 2 * c + dec.decode() as u32;
        c = 2 * c + dec.decode() as u32;
        c = 2 * c + dec.decode() as u32;
        out.push((c - 256) as u8);
        fuel = fuel - 1;
    }
    out
}

/// `a` is an initial segment of `b`.
pub open spec fn is_ext(a: Seq<u8>, b: Seq<u8>) -> bool {
    a.len() <= b.len() && b.subrange(0, a.len() as int) == a
}

proof fn lemma_ext_trans(a: Seq<u8>, b: Seq<u8>, c: Seq<u8>)
    requires
        is_ext(a, b),
        is_ext(b, c),
    ensures
        is_ext(a, c),
{
    assert(c.subrange(0, a.len() as int) =~= a) by {
        assert forall|i: int| 0 <= i < a.len() implies c.subrange(0, a.len() as int)[i] == a[i] by {
            assert(b.subrange(0, a.len() as int)[i] == a[i]);
            assert(c.subrange(0, b.len() as int)[i] == b[i]);
        }
    }
}

/// One framed byte keeps the encoder state well formed and only appends to
/// its output.
proof fn lemma_enc_byte_props(m: EncModel, b: u8)
    requires
        enc_wf(m),
    ensures
        enc_wf(enc_byte(m, b)),
        is_ext(m.out, enc_byte(m, b).out),
{
    let m0 = enc_encode(m, 1);
    let m1 = enc_encode(m0, ((b / 128) % 2) as u32);
    let m2 = enc_encode(m1, ((b / 64) % 2) as u32);
    let m3 = enc_encode(m2, ((b / 32) % 2) as u32);
    let m4 = enc_encode(m3, ((b / 16) % 2) as u32);
    let m5 = enc_encode(m4, ((b / 8) % 2) as u32);
    let m6 = enc_encode(m5, ((b / 4) % 2) as u32);
    let m7 = enc_encode(m6, ((b / 2) % 2) as u32);
    lemma_enc_encode_props(m, 1);
    lemma_enc_encode_props(m0, ((b / 128) % 2) as u32);
    lemma_enc_encode_props(m1, ((b / 64) % 2) as u32);
    lemma_enc_encode_props(m2, ((b / 32) % 2) as u32);
    lemma_enc_encode_props(m3, ((b / 16) % 2) as u32);
    lemma_enc_encode_props(m4, ((b / 8) % 2) as u32);
    lemma_enc_encode_props(m5, ((b / 4) % 2) as u32);
    lemma_enc_encode_props(m6, ((b / 2) % 2) as u32);
    lemma_enc_encode_props(m7, (b % 2) as u32);
    lemma_ext_trans(m.out, m0.out, m1.out);
    lemma_ext_trans(m.out, m1.out, m2.out);
    lemma_ext_trans(m.out, m2.out, m3.out);
    lemma_ext_trans(m.out, m3.out, m4.out);
    lemma_ext_trans(m.out, m4.out, m5.out);
    lemma_ext_trans(m.out, m5.out, m6.out);
    lemma_ext_trans(m.out, m6.out, m7.out);
    lemma_ext_trans(m.out, m7.out, enc_byte(m, b).out);
}

/// Every state the byte loop moves through is well formed, and its output
/// extends the output of every earlier state.
proof fn lemma_upto_wf(s: Seq<u8>, i: int)
    requires
        0 <= i <= s.len(),
    ensures
        enc_wf(enc_upto(s, i)),
    decreases i,
{
    if i > 0 {
        lemma_upto_wf(s, i - 1);
        lemma_enc_byte_props(enc_upto(s, i - 1), s[i - 1]);
    }
}

proof fn lemma_upto_ext(s: Seq<u8>, i: int, j: int)
    requires
        0 <= i <= j <= s.len(),
    ensures
        is_ext(enc_upto(s, i).out, enc_upto(s, j).out),
    decreases j - i,
{
    if i == j {
        assert(enc_upto(s, i).out.subrange(0, enc_upto(s, i).out.len() as int) =~= enc_upto(
            s,
            i,
        ).out);
    } else {
        lemma_upto_ext(s, i, j - 1);
        lemma_upto_wf(s, j - 1);
        lemma_enc_byte_props(enc_upto(s, j - 1), s[j - 1]);
        lemma_ext_trans(enc_upto(s, i).out, enc_upto(s, j - 1).out, enc_upto(s, j).out);
    }
}

/// The shape of the finished stream: the last encoder state before the flush
/// is the one reached after the end-of-stream bit, the stream is its output
/// plus the flush byte, and the window read at the flush byte lies in that
/// state's range.
proof fn lemma_full_shape(s: Seq<u8>)
    ensures
        ({
            let mf = enc_encode(enc_upto(s, s.len() as int), 0);
            let full = spec_compress(s);
            &&& enc_wf(mf)
            &&& full == mf.out.push((mf.high / 0x1000000) as u8)
            &&& full.len() == mf.out.len() + 1
            &&& mf.out == full.take(mf.out.len() as int)
            &&& mf.low <= win(full, mf.out.len() as int) <= mf.high
        }),
{
    let n = s.len() as int;
    lemma_upto_wf(s, n);
    lemma_enc_encode_props(enc_upto(s, n), 0);
    let mf = enc_encode(enc_upto(s, n), 0);
    let b = (mf.high / 0x1000000) as u8;
    lemma_flush_reconstructs(mf.low, mf.high, mf.out);
    let full = spec_compress(s);
    assert(enc_renorm(mf.low, mf.high, mf.out) == (mf.low, mf.high, mf.out));
    assert(full == mf.out.push(b));
    assert(mf.out =~= full.take(mf.out.len() as int));
    let k = mf.out.len() as int;
    assert(byte_at(full, k) == b);
    assert(byte_at(full, k + 1) == 0 && byte_at(full, k + 2) == 0 && byte_at(full, k + 3) == 0);
    assert(win(full, k) == b as u32 * 0x1000000);
    assert(mf.low <= (mf.high / 0x1000000) as int * 0x1000000 <= mf.high);
}

/// The eight data bits of a byte, decoded most significant first into the
/// leading-1 accumulator, rebuild exactly that byte.
proof fn lemma_byte_rebuild(b: u8)
    ensures
        ({
            let c1 = 1 * 2 + ((b / 128) % 2);
            let c2 = c1 * 2 + ((b / 64) % 2);
            let c3 = c2 * 2 + ((b / 32) % 2);
            let c4 = c3 * 2 + ((b / 16) % 2);
            let c5 = c4 * 2 + ((b / 8) % 2);
            let c6 = c5 * 2 + ((b / 4) % 2);
            let c7 = c6 * 2 + ((b / 2) % 2);
            let c8 = c7 * 2 + (b % 2);
            c8 - 256 == b
        }),
{
    assert(((b / 128) % 2) * 128 + ((b / 64) % 2) * 64 + ((b / 32) % 2) * 32 + ((b / 16) % 2) * 16
        + ((b / 8) % 2) * 8 + ((b / 4) % 2) * 4 + ((b / 2) % 2) * 2 + (b % 2) == b)
        by (bit_vector);
}

/// The tracked decoder replays the tail of the stream: started in step with
/// the encoder state after `i` input bytes, the decode loop returns exactly
/// the remaining input bytes, and the window it starts from lies inside that
/// encoder state's range.
#[verifier::rlimit(100)]
#[verifier::spinoff_prover]
proof fn lemma_tail(s: Seq<u8>, i: int, acc: Seq<u8>, fuel: nat)
    requires
        0 <= i <= s.len(),
        fuel >= s.len() - i + 1,
    ensures
        ({
            let full = spec_compress(s);
            let e = enc_upto(s, i);
            &&& e.low <= win(full, e.out.len() as int) <= e.high
            &&& dec_loop(full, dec_of(full, e), acc, fuel) == acc + s.skip(i)
        }),
    decreases s.len() - i,
{
    let full = spec_compress(s);
    let n = s.len() as int;
    let e = enc_upto(s, i);
    lemma_upto_wf(s, i);
    lemma_upto_ext(s, i, n);
    lemma_full_shape(s);
    let mf = enc_encode(enc_upto(s, n), 0);
    lemma_upto_wf(s, n);
    lemma_enc_encode_props(enc_upto(s, n), 0);
    lemma_ext_trans(e.out, enc_upto(s, n).out, mf.out);
    lemma_ext_trans(e.out, mf.out, full);
    assert(e.out =~= full.take(e.out.len() as int));
    if i == n {
        lemma_bit_sim(full, e, 0);
        assert(dec_loop(full, dec_of(full, e), acc, fuel) == acc);
        assert(acc + s.skip(n) =~= acc);
    } else {
        let b = s[i];
        let m0 = e;
        let m1 = enc_encode(m0, 1);
        let m2 = enc_encode(m1, ((b / 128) % 2) as u32);
        let m3 = enc_encode(m2, ((b / 64) % 2) as u32);
        let m4 = enc_encode(m3, ((b / 32) % 2) as u32);
        let m5 = enc_encode(m4, ((b / 16) % 2) as u32);
        let m6 = enc_encode(m5, ((b / 8) % 2) as u32);
        let m7 = enc_encode(m6, ((b / 4) % 2) as u32);
        let m8 = enc_encode(m7, ((b / 2) % 2) as u32);
        let m9 = enc_encode(m8, (b % 2) as u32);
        assert(m9 == enc_upto(s, i + 1));
        lemma_enc_encode_props(m0, 1);
        lemma_enc_encode_props(m1, ((b / 128) % 2) as u32);
        lemma_enc_encode_props(m2, ((b / 64) % 2) as u32);
        lemma_enc_encode_props(m3, ((b / 32) % 2) as u32);
        lemma_enc_encode_props(m4, ((b / 16) % 2) as u32);
        lemma_enc_encode_props(m5, ((b / 8) % 2) as u32);
        lemma_enc_encode_props(m6, ((b / 4) % 2) as u32);
        lemma_enc_encode_props(m7, ((b / 2) % 2) as u32);
        lemma_enc_encode_props(m8, (b % 2) as u32);
        lemma_upto_ext(s, i + 1, n);
        lemma_ext_trans(m9.out, enc_upto(s, n).out, mf.out);
        lemma_ext_trans(m9.out, mf.out, full);
        lemma_ext_trans(m8.out, m9.out, full);
        lemma_ext_trans(m7.out, m8.out, full);
        lemma_ext_trans(m6.out, m7.out, full);
        lemma_ext_trans(m5.out, m6.out, full);
        lemma_ext_trans(m4.out, m5.out, full);
        lemma_ext_trans(m3.out, m4.out, full);
        lemma_ext_trans(m2.out, m3.out, full);
        lemma_ext_trans(m1.out, m2.out, full);
        assert(m1.out =~= full.take(m1.out.len() as int));
        assert(m2.out =~= full.take(m2.out.len() as int));
        assert(m3.out =~= full.take(m3.out.len() as int));
        assert(m4.out =~= full.take(m4.out.len() as int));
        assert(m5.out =~= full.take(m5.out.len() as int));
        assert(m6.out =~= full.take(m6.out.len() as int));
        assert(m7.out =~= full.take(m7.out.len() as int));
        assert(m8.out =~= full.take(m8.out.len() as int));
        assert(m9.out =~= full.take(m9.out.len() as int));
        lemma_tail(s, i + 1, acc.push(b), (fuel - 1) as nat);
        lemma_bit_sim(full, m8, (b % 2) as u32);
        lemma_bit_sim(full, m7, ((b / 2) % 2) as u32);
        lemma_bit_sim(full, m6, ((b / 4) % 2) as u32);
        lemma_bit_sim(full, m5, ((b / 8) % 2) as u32);
        lemma_bit_sim(full, m4, ((b / 16) % 2) as u32);
        lemma_bit_sim(full, m3, ((b / 32) % 2) as u32);
        lemma_bit_sim(full, m2, ((b / 64) % 2) as u32);
        lemma_bit_sim(full, m1, ((b / 128) % 2) as u32);
        lemma_bit_sim(full, m0, 1);
        lemma_byte_rebuild(b);
        assert(dec_byte(full, dec_of(full, m1)) == (dec_of(full, m9), b));
        assert(dec_loop(full, dec_of(full, m0), acc, fuel) == dec_loop(
            full,
            dec_of(full, m9),
            acc.push(b),
            (fuel - 1) as nat,
        ));
        assert(acc.push(b) + s.skip(i + 1) =~= acc + s.skip(i));
    }
}

/// Round trip: decompressing the compressed form of any byte sequence gives
/// back exactly that sequence.
pub proof fn lemma_round_trip(s: Seq<u8>)
    requires
        s.len() < 0xFFFFFFFFFFFFFFFF,
    ensures
        spec_decompress(spec_compress(s)) == s,
{
    let full = spec_compress(s);
    lemma_tail(s, 0, Seq::empty(), 0xFFFFFFFFFFFFFFFF as nat);
    assert(dec_init(full) =~~= dec_of(full, enc_upto(s, 0)));
    assert(Seq::<u8>::empty() + s.skip(0) =~= s);
}

} // verus!
