//! Delta and Gorilla-style XOR baseline predictors for integer and
//! floating-point streams, and the residual alphabet they share.

use vstd::prelude::*;
use vstd::arithmetic::power2::{pow2, lemma_pow2_pos, lemma2_to64, lemma_pow2_unfold,
    lemma_pow2_strictly_increases};
use crate::stream::bitstream::{BitReader, BitWriter, low_bits, read_val, read_pos, packed,
    total_bits, lemma_read_packed_field};
use crate::le_bytes::bytes_value;
use crate::predictor::zero_run::{pack_runs, expand_runs, pack_zero_runs, expand_zero_runs};

verus! {

/// Zigzag mapping of a signed value onto the unsigned integers:
/// `0, -1, 1, -2, 2, ...` map to `0, 1, 2, 3, 4, ...`.
pub open spec fn zigzag64(n: int) -> int {
    if n >= 0 {
        2 * n
    } else {
        -2 * n - 1
    }
}

/// The inverse of `zigzag64`.
pub open spec fn unzigzag64(z: int) -> int {
    if z % 2 == 0 {
        z / 2
    } else {
        -(z + 1) / 2
    }
}

pub fn zigzag_encode_i64(n: i64) -> (z: u64)
    ensures
        z as int == zigzag64(n as int),
{
    let u: u64 = n as u64;
    let sign: u64 = 0u64.wrapping_sub(u >> 63);
    let z: u64 = (u << 1) ^ sign;
    assert(n >= 0 ==> z == 2 * n) by (bit_vector)
        requires
            u == n as u64,
            sign == 0u64.wrapping_sub(u >> 63),
            z == (u << 1) ^ sign,
    ;
    assert(n < 0 ==> z == -2 * n - 1) by (bit_vector)
        requires
            u == n as u64,
            sign == 0u64.wrapping_sub(u >> 63),
            z == (u << 1) ^ sign,
    ;
    z
}


pub fn zigzag_decode_i64(z: u64) -> (n: i64)
    ensures
        n as int == unzigzag64(z as int),
{
    let mask: u64 = 0u64.wrapping_sub(z & 1);
    let u: u64 = (z >> 1) ^ mask;
    let n: i64 = u as i64;
    assert(z % 2 == 0 ==> n == z / 2) by (bit_vector)
        requires
            mask == 0u64.wrapping_sub(z & 1),
            u == (z >> 1) ^ mask,
            n == u as i64,
    ;
    assert(z % 2 == 1 ==> n == -(z + 1) / 2) by (bit_vector)
        requires
            mask == 0u64.wrapping_sub(z & 1),
            u == (z >> 1) ^ mask,
            n == u as i64,
    ;
    n
}

pub fn zigzag_encode_i32(n: i32) -> (z: u32)
    ensures
        z as int == zigzag64(n as int),
{
    let u: u32 = n as u32;
    let sign: u32 = 0u32.wrapping_sub(u >> 31);
    let z: u32 = (u << 1) ^ sign;
    assert(n >= 0 ==> z == 2 * n) by (bit_vector)
        requires
            u == n as u32,
            sign == 0u32.wrapping_sub(u >> 31),
            z == (u << 1) ^ sign,
    ;
    assert(n < 0 ==> z == -2 * n - 1) by (bit_vector)
        requires
            u == n as u32,
            sign == 0u32.wrapping_sub(u >> 31),
            z == (u << 1) ^ sign,
    ;
    z
}

pub fn zigzag_decode_i32(z: u32) -> (n: i32)
    ensures
        n as int == unzigzag64(z as int),
{
    let mask: u32 = 0u32.wrapping_sub(z & 1);
    let u: u32 = (z >> 1) ^ mask;
    let n: i32 = u as i32;
    assert(z % 2 == 0 ==> n == z / 2) by (bit_vector)
        requires
            mask == 0u32.wrapping_sub(z & 1),
            u == (z >> 1) ^ mask,
            n == u as i32,
    ;
    assert(z % 2 == 1 ==> n == -(z + 1) / 2) by (bit_vector)
        requires
            mask == 0u32.wrapping_sub(z & 1),
            u == (z >> 1) ^ mask,
            n == u as i32,
    ;
    n
}

/// Zigzag decoding inverts zigzag encoding.
pub proof fn lemma_zigzag_roundtrip(n: int)
    ensures
        unzigzag64(zigzag64(n)) == n,
        zigzag64(n) >= 0,
{
}

/// Number of significant bits of `v`.
pub open spec fn bit_width(v: nat) -> nat
    decreases v,
{
    if v == 0 {
        0
    } else {
        1 + bit_width(v / 2)
    }
}

pub proof fn lemma_bit_width(v: nat)
    requires
        v > 0,
    ensures
        bit_width(v) >= 1,
        pow2((bit_width(v) - 1) as nat) <= v < pow2(bit_width(v)),
    decreases v,
{
    if v / 2 > 0 {
        lemma_bit_width(v / 2);
        let w1 = bit_width(v / 2);
        assert(bit_width(v) == w1 + 1);
        lemma_pow2_unfold(w1 + 1);
        lemma_pow2_unfold(w1);
        assert(v == 2 * (v / 2) + v % 2);
        assert(pow2(w1 + 1) == 2 * pow2(w1));
        assert(pow2(w1) == 2 * pow2((w1 - 1) as nat));
    } else {
        lemma2_to64();
        assert(v == 1);
        assert(bit_width(0) == 0);
        assert(bit_width(1) == 1);
    }
}

pub proof fn lemma_bit_width_leading_zeros(v: u64)
    ensures
        vstd::std_specs::bits::u64_leading_zeros(v) == 64 - bit_width(v as nat),
    decreases v,
{
    reveal(vstd::std_specs::bits::u64_leading_zeros);
    if v > 0 {
        lemma_bit_width_leading_zeros(v / 2);
    }
}

/// The residual alphabet. A residual below 128 is its own symbol; a larger
/// one of bit width `w` (8 to 64) becomes symbol `128 + w`, followed by its
/// `w - 1` bits below the leading one.
pub open spec fn classify(v: u64) -> (u8, u8, u64) {
    if v < 128 {
        (v as u8, 0, 0)
    } else {
        let w = bit_width(v as nat);
        ((128 + w) as u8, (w - 1) as u8, (v as nat % pow2((w - 1) as nat)) as u64)
    }
}

/// Number of extra bits that follow a symbol.
pub open spec fn extra_count(sym: u8) -> nat {
    if sym <= 128 {
        0
    } else if sym <= 192 {
        (sym - 129) as nat
    } else {
        64
    }
}

/// The residual that a symbol and its extra bits stand for.
pub open spec fn residual_value(sym: u8, extra: nat) -> nat {
    if sym < 128 {
        sym as nat
    } else if sym == 128 {
        0
    } else if sym <= 192 {
        pow2((sym - 129) as nat) + extra
    } else {
        extra
    }
}

/// Classification is undone by reconstruction.
pub proof fn lemma_classify_roundtrip(v: u64)
    ensures
        classify(v).1 as nat == extra_count(classify(v).0),
        (classify(v).2 as nat) < pow2(classify(v).1 as nat),
        residual_value(classify(v).0, classify(v).2 as nat) == v,
        classify(v).1 <= 63,
        classify(v).0 <= 192,
{
    if v >= 128 {
        lemma_bit_width(v as nat);
        let w = bit_width(v as nat);
        lemma2_to64();
        if w < 8 {
            lemma_pow2_strictly_increases(w, 7);
        }
        if w > 64 {
            lemma_pow2_strictly_increases(64, (w - 1) as nat);
        }
        assert(8 <= w <= 64);
        let p = pow2((w - 1) as nat);
        lemma_pow2_pos((w - 1) as nat);
        lemma_pow2_unfold(w);
        vstd::arithmetic::div_mod::lemma_mod_bound(v as int, p as int);
        vstd::arithmetic::div_mod::lemma_fundamental_div_mod(v as int, p as int);
        assert(v as nat / p == 1) by (nonlinear_arith)
            requires
                p <= v < 2 * p,
                p > 0,
        ;
    } else {
        lemma2_to64();
    }
}

/// Classify an unsigned 64-bit residual into (symbol, extra_bit_count, extra_value).
pub fn classify_residual_u64(val: u64) -> (r: (u8, u8, u64))
    ensures
        r == classify(val),
{
    if val < 128 {
        (val as u8, 0, 0)
    } else {
        proof {
            lemma_bit_width_leading_zeros(val);
            lemma_classify_roundtrip(val);
            lemma_bit_width(val as nat);
        }
        let lz: u32 = val.leading_zeros();
        let w: u8 = (64 - lz) as u8;
        let sym: u8 = 128 + w;
        let extra_bits: u8 = w - 1;
        let extra_val: u64 = low_bits(val, extra_bits);
        (sym, extra_bits, extra_val)
    }
}


/// Reconstruct an unsigned 64-bit residual from symbol and extra bits safely.
pub fn reconstruct_residual_u64(symbol: u8, reader: &mut BitReader) -> (r: u64)
    requires
        old(reader).wf(),
    ensures
        final(reader).wf(),
        final(reader).data() == old(reader).data(),
        r as nat == residual_value(
            symbol,
            read_val(old(reader).data(), old(reader).bit_pos(), extra_count(symbol)),
        ),
        final(reader).bit_pos() == read_pos(
            old(reader).data(),
            old(reader).bit_pos(),
            extra_count(symbol),
        ),
{
    proof {
        reader.lemma_bit_pos_bound();
        lemma2_to64();
        let n = bytes_value(reader.data()) / pow2(reader.bit_pos());
        assert(n % 1 == 0);
    }
    if symbol < 128 {
        symbol as u64
    } else {
        let w: u8 = symbol.saturating_sub(128);
        if w == 0 {
            0
        } else if w <= 64 {
            let extra_bits: u8 = w - 1;
            let extra_val: u64 = reader.read_bits(extra_bits);
            let e64: u64 = extra_bits as u64;
            proof {
                lemma_pow2_pos(e64 as nat);
                vstd::arithmetic::div_mod::lemma_mod_bound(
                    (bytes_value(old(reader).data()) / pow2(old(reader).bit_pos())) as int,
                    pow2(e64 as nat) as int,
                );
                vstd::bits::lemma_u64_pow2_no_overflow(e64 as nat);
                vstd::bits::lemma_u64_shl_is_mul(1, e64);
            }
            let top: u64 = 1u64 << e64;
            assert(top | extra_val == top + extra_val) by (bit_vector)
                requires
                    top == 1u64 << e64,
                    extra_val < top,
                    e64 < 64,
            ;
            top | extra_val
        } else {
            reader.read_bits(64)
        }
    }
}

/// The extra-bit fields that a list of residuals puts on the bit stream.
pub open spec fn extras_of(rs: Seq<u64>) -> Seq<(u64, u8)> {
    Seq::new(rs.len(), |i: int| (classify(rs[i]).2, classify(rs[i]).1))
}

/// The symbols of a list of residuals.
pub open spec fn symbols_of(rs: Seq<u64>) -> Seq<u8> {
    Seq::new(rs.len(), |i: int| classify(rs[i]).0)
}

/// Residuals decoded from symbols, reading extra bits from `data` at bit
/// position `p`: the residuals and the bit position after them.
pub open spec fn decode_residuals(syms: Seq<u8>, data: Seq<u8>, p: nat) -> (Seq<u64>, nat)
    decreases syms.len(),
{
    if syms.len() == 0 {
        (Seq::empty(), p)
    } else {
        let (pre, q) = decode_residuals(syms.drop_last(), data, p);
        let c = extra_count(syms.last());
        (
            pre.push(residual_value(syms.last(), read_val(data, q, c)) as u64),
            read_pos(data, q, c),
        )
    }
}

/// Emits one residual: its symbol and its extra bits.
pub(crate) fn emit_residual(z: u64, symbols_out: &mut Vec<u8>, writer: &mut BitWriter)
    requires
        old(writer).wf(),
    ensures
        final(writer).wf(),
        final(symbols_out)@ == old(symbols_out)@.push(classify(z).0),
        final(writer).value() == old(writer).value() + (classify(z).2 as nat % pow2(
            classify(z).1 as nat,
        )) * pow2(old(writer).bit_len()),
        final(writer).bit_len() == old(writer).bit_len() + classify(z).1,
{
    proof {
        lemma_classify_roundtrip(z);
    }
    let (sym, extra_count, extra_val) = classify_residual_u64(z);
    symbols_out.push(sym);
    writer.write_bits(extra_val, extra_count);
}

/// Bookkeeping for one more field written after the fields `xs.take(i)`.
pub(crate) proof fn lemma_packed_take_step(xs: Seq<(u64, u8)>, i: int, v0: nat, b0: nat, v: nat)
    requires
        0 <= i < xs.len(),
        v == v0 + pow2(b0) * packed(xs.take(i)) + (xs[i].0 as nat % pow2(xs[i].1 as nat))
            * pow2(b0 + total_bits(xs.take(i))),
    ensures
        v == v0 + pow2(b0) * packed(xs.take(i + 1)),
        total_bits(xs.take(i + 1)) == total_bits(xs.take(i)) + xs[i].1,
{
    assert(xs.take(i + 1).drop_last() =~= xs.take(i));
    let t = total_bits(xs.take(i));
    vstd::arithmetic::power2::lemma_pow2_adds(b0, t);
    let e = xs[i].0 as nat % pow2(xs[i].1 as nat);
    assert(pow2(b0) * (packed(xs.take(i)) + e * pow2(t)) == pow2(b0) * packed(xs.take(i)) + e * (
    pow2(b0) * pow2(t))) by (nonlinear_arith);
}

/// Decoding the residuals that were classified and packed gives them back.
pub proof fn lemma_residuals_roundtrip(rs: Seq<u64>, data: Seq<u8>, k: int)
    requires
        0 <= k <= rs.len(),
        bytes_value(data) == packed(extras_of(rs)),
        8 * data.len() >= total_bits(extras_of(rs)),
    ensures
        decode_residuals(symbols_of(rs).take(k), data, 0) == (rs.take(k), total_bits(
            extras_of(rs).take(k),
        )),
    decreases k,
{
    let xs = extras_of(rs);
    if k == 0 {
        assert(symbols_of(rs).take(0) =~= Seq::<u8>::empty());
        assert(rs.take(0) =~= Seq::<u64>::empty());
        assert(xs.take(0) =~= Seq::<(u64, u8)>::empty());
    } else {
        lemma_residuals_roundtrip(rs, data, k - 1);
        assert(symbols_of(rs).take(k).drop_last() =~= symbols_of(rs).take(k - 1));
        lemma_read_packed_field(xs, k - 1, data);
        lemma_classify_roundtrip(rs[k - 1]);
        vstd::arithmetic::div_mod::lemma_small_mod(
            classify(rs[k - 1]).2 as nat,
            pow2(classify(rs[k - 1]).1 as nat),
        );
        assert(rs.take(k - 1).push(rs[k - 1]) =~= rs.take(k));
    }
}

/// The sample that precedes sample `i` of a block.
pub open spec fn prev_sample(samples: Seq<i64>, init: i64, i: int) -> i64 {
    if i == 0 {
        init
    } else {
        samples[i - 1]
    }
}

/// Delta residuals: zigzag of each wrapping difference to the sample before.
pub open spec fn delta_residuals(samples: Seq<i64>, init: i64) -> Seq<u64> {
    Seq::new(
        samples.len(),
        |i: int| zigzag64(samples[i].wrapping_sub(prev_sample(samples, init, i)) as int) as u64,
    )
}

/// Samples rebuilt from delta residuals by wrapping prefix sums.
pub open spec fn undelta(zs: Seq<u64>, init: i64) -> Seq<i64>
    decreases zs.len(),
{
    if zs.len() == 0 {
        Seq::empty()
    } else {
        let pre = undelta(zs.drop_last(), init);
        let prev = if pre.len() == 0 {
            init
        } else {
            pre.last()
        };
        pre.push(prev.wrapping_add(unzigzag64(zs.last() as int) as i64))
    }
}

pub proof fn lemma_undelta_len(zs: Seq<u64>, init: i64)
    ensures
        undelta(zs, init).len() == zs.len(),
    decreases zs.len(),
{
    if zs.len() > 0 {
        lemma_undelta_len(zs.drop_last(), init);
    }
}

/// Delta decoding inverts delta encoding.
pub proof fn lemma_delta_roundtrip(samples: Seq<i64>, init: i64)
    ensures
        undelta(delta_residuals(samples, init), init) == samples,
    decreases samples.len(),
{
    if samples.len() > 0 {
        let pre = samples.drop_last();
        assert(delta_residuals(samples, init).drop_last() =~= delta_residuals(pre, init));
        lemma_delta_roundtrip(pre, init);
        let n = samples.len() - 1;
        let d = samples[n].wrapping_sub(prev_sample(samples, init, n));
        lemma_zigzag_roundtrip(d as int);
        assert(zigzag64(d as int) < 0x1_0000_0000_0000_0000);
        assert(prev_sample(samples, init, n).wrapping_add(d) == samples[n]);
        assert(pre.push(samples[n]) =~= samples);
    }
}

/// Delta residual symbols, one per sample, and their extra bits.
fn encode_delta_units(
    samples: &[i64],
    initial_sample: i64,
    symbols_out: &mut Vec<u8>,
    writer: &mut BitWriter,
)
    requires
        old(writer).wf(),
    ensures
        final(writer).wf(),
        final(symbols_out)@ == old(symbols_out)@ + symbols_of(
            delta_residuals(samples@, initial_sample),
        ),
        final(writer).value() == old(writer).value() + pow2(old(writer).bit_len()) * packed(
            extras_of(delta_residuals(samples@, initial_sample)),
        ),
        final(writer).bit_len() == old(writer).bit_len() + total_bits(
            extras_of(delta_residuals(samples@, initial_sample)),
        ),
{
    let ghost rs = delta_residuals(samples@, initial_sample);
    let ghost xs = extras_of(rs);
    let ghost v0 = writer.value();
    let ghost b0 = writer.bit_len();
    let mut prev: i64 = initial_sample;
    let mut i: usize = 0;
    proof {
        assert(xs.take(0) =~= Seq::<(u64, u8)>::empty());
        assert(pow2(b0) * 0 == 0) by (nonlinear_arith);
    }
    while i < samples.len()
        invariant
            i <= samples@.len(),
            rs == delta_residuals(samples@, initial_sample),
            xs == extras_of(rs),
            prev == prev_sample(samples@, initial_sample, i as int),
            writer.wf(),
            symbols_out@ == old(symbols_out)@ + symbols_of(rs).take(i as int),
            writer.value() == v0 + pow2(b0) * packed(xs.take(i as int)),
            writer.bit_len() == b0 + total_bits(xs.take(i as int)),
        decreases samples@.len() - i,
    {
        let val: i64 = samples[i];
        let diff: i64 = val.wrapping_sub(prev);
        let z: u64 = zigzag_encode_i64(diff);
        let ghost bl = writer.bit_len();
        emit_residual(z, symbols_out, writer);
        proof {
            assert(z == rs[i as int]);
            lemma_packed_take_step(xs, i as int, v0, b0, writer.value());
            assert(symbols_out@ =~= old(symbols_out)@ + symbols_of(rs).take(i + 1));
        }
        prev = val;
        i = i + 1;
    }
    proof {
        assert(xs.take(samples@.len() as int) =~= xs);
        assert(symbols_of(rs).take(samples@.len() as int) =~= symbols_of(rs));
    }
}

/// Delta decoding of one symbol per sample.
fn decode_delta_units(
    symbols: &[u8],
    initial_sample: i64,
    reader: &mut BitReader,
    samples_out: &mut Vec<i64>,
)
    requires
        old(reader).wf(),
    ensures
        final(reader).wf(),
        final(reader).data() == old(reader).data(),
        final(samples_out)@ == old(samples_out)@ + undelta(
            decode_residuals(symbols@, old(reader).data(), old(reader).bit_pos()).0,
            initial_sample,
        ),
        final(reader).bit_pos() == decode_residuals(
            symbols@,
            old(reader).data(),
            old(reader).bit_pos(),
        ).1,
{
    let ghost data = reader.data();
    let ghost p0 = reader.bit_pos();
    let mut prev: i64 = initial_sample;
    let mut i: usize = 0;
    proof {
        assert(symbols@.take(0) =~= Seq::<u8>::empty());
    }
    while i < symbols.len()
        invariant
            i <= symbols@.len(),
            reader.wf(),
            reader.data() == data,
            reader.bit_pos() == decode_residuals(symbols@.take(i as int), data, p0).1,
            samples_out@ == old(samples_out)@ + undelta(
                decode_residuals(symbols@.take(i as int), data, p0).0,
                initial_sample,
            ),
            prev == (if i == 0 {
                initial_sample
            } else {
                undelta(decode_residuals(symbols@.take(i as int), data, p0).0, initial_sample).last()
            }),
            decode_residuals(symbols@.take(i as int), data, p0).0.len() == i,
        decreases symbols@.len() - i,
    {
        let sym: u8 = symbols[i];
        let z: u64 = reconstruct_residual_u64(sym, reader);
        let diff: i64 = zigzag_decode_i64(z);
        let val: i64 = prev.wrapping_add(diff);
        samples_out.push(val);
        proof {
            let t1 = symbols@.take(i + 1);
            assert(t1.drop_last() =~= symbols@.take(i as int));
            assert(t1.last() == sym);
            let zs = decode_residuals(t1, data, p0).0;
            assert(zs.drop_last() =~= decode_residuals(symbols@.take(i as int), data, p0).0);
            lemma_undelta_len(zs.drop_last(), initial_sample);
            assert(samples_out@ =~= old(samples_out)@ + undelta(zs, initial_sample));
        }
        prev = val;
        i = i + 1;
    }
    proof {
        assert(symbols@.take(symbols@.len() as int) =~= symbols@);
    }
}

/// XOR residuals: each word XOR the word before.
pub open spec fn xor_residuals(samples: Seq<u64>, init: u64) -> Seq<u64> {
    Seq::new(
        samples.len(),
        |i: int| samples[i] ^ (if i == 0 {
            init
        } else {
            samples[i - 1]
        }),
    )
}

/// Words rebuilt from XOR residuals.
pub open spec fn unxor(zs: Seq<u64>, init: u64) -> Seq<u64>
    decreases zs.len(),
{
    if zs.len() == 0 {
        Seq::empty()
    } else {
        let pre = unxor(zs.drop_last(), init);
        let prev = if pre.len() == 0 {
            init
        } else {
            pre.last()
        };
        pre.push(prev ^ zs.last())
    }
}

pub proof fn lemma_unxor_len(zs: Seq<u64>, init: u64)
    ensures
        unxor(zs, init).len() == zs.len(),
    decreases zs.len(),
{
    if zs.len() > 0 {
        lemma_unxor_len(zs.drop_last(), init);
    }
}

/// XOR decoding inverts XOR encoding.
pub proof fn lemma_xor_roundtrip(samples: Seq<u64>, init: u64)
    ensures
        unxor(xor_residuals(samples, init), init) == samples,
    decreases samples.len(),
{
    if samples.len() > 0 {
        let pre = samples.drop_last();
        assert(xor_residuals(samples, init).drop_last() =~= xor_residuals(pre, init));
        lemma_xor_roundtrip(pre, init);
        let n = samples.len() - 1;
        let p = if n == 0 {
            init
        } else {
            samples[n - 1]
        };
        let v = samples[n];
        assert(p ^ (v ^ p) == v) by (bit_vector);
        assert(pre.push(samples[n]) =~= samples);
    }
}

/// XOR residual symbols, one per word, and their extra bits.
fn encode_xor_units(
    samples: &[u64],
    initial_sample: u64,
    symbols_out: &mut Vec<u8>,
    writer: &mut BitWriter,
)
    requires
        old(writer).wf(),
    ensures
        final(writer).wf(),
        final(symbols_out)@ == old(symbols_out)@ + symbols_of(
            xor_residuals(samples@, initial_sample),
        ),
        final(writer).value() == old(writer).value() + pow2(old(writer).bit_len()) * packed(
            extras_of(xor_residuals(samples@, initial_sample)),
        ),
        final(writer).bit_len() == old(writer).bit_len() + total_bits(
            extras_of(xor_residuals(samples@, initial_sample)),
        ),
{
    let ghost rs = xor_residuals(samples@, initial_sample);
    let ghost xs = extras_of(rs);
    let ghost v0 = writer.value();
    let ghost b0 = writer.bit_len();
    let mut prev: u64 = initial_sample;
    let mut i: usize = 0;
    proof {
        assert(xs.take(0) =~= Seq::<(u64, u8)>::empty());
        assert(pow2(b0) * 0 == 0) by (nonlinear_arith);
    }
    while i < samples.len()
        invariant
            i <= samples@.len(),
            rs == xor_residuals(samples@, initial_sample),
            xs == extras_of(rs),
            prev == (if i == 0 {
                initial_sample
            } else {
                samples@[i - 1]
            }),
            writer.wf(),
            symbols_out@ == old(symbols_out)@ + symbols_of(rs).take(i as int),
            writer.value() == v0 + pow2(b0) * packed(xs.take(i as int)),
            writer.bit_len() == b0 + total_bits(xs.take(i as int)),
        decreases samples@.len() - i,
    {
        let val: u64 = samples[i];
        let xor_diff: u64 = val ^ prev;
        emit_residual(xor_diff, symbols_out, writer);
        proof {
            assert(xor_diff == rs[i as int]);
            lemma_packed_take_step(xs, i as int, v0, b0, writer.value());
            assert(symbols_out@ =~= old(symbols_out)@ + symbols_of(rs).take(i + 1));
        }
        prev = val;
        i = i + 1;
    }
    proof {
        assert(xs.take(samples@.len() as int) =~= xs);
        assert(symbols_of(rs).take(samples@.len() as int) =~= symbols_of(rs));
    }
}

/// XOR decoding of one symbol per word.
fn decode_xor_units(
    symbols: &[u8],
    initial_sample: u64,
    reader: &mut BitReader,
    samples_out: &mut Vec<u64>,
)
    requires
        old(reader).wf(),
    ensures
        final(reader).wf(),
        final(reader).data() == old(reader).data(),
        final(samples_out)@ == old(samples_out)@ + unxor(
            decode_residuals(symbols@, old(reader).data(), old(reader).bit_pos()).0,
            initial_sample,
        ),
        final(reader).bit_pos() == decode_residuals(
            symbols@,
            old(reader).data(),
            old(reader).bit_pos(),
        ).1,
{
    let ghost data = reader.data();
    let ghost p0 = reader.bit_pos();
    let mut prev: u64 = initial_sample;
    let mut i: usize = 0;
    proof {
        assert(symbols@.take(0) =~= Seq::<u8>::empty());
    }
    while i < symbols.len()
        invariant
            i <= symbols@.len(),
            reader.wf(),
            reader.data() == data,
            reader.bit_pos() == decode_residuals(symbols@.take(i as int), data, p0).1,
            samples_out@ == old(samples_out)@ + unxor(
                decode_residuals(symbols@.take(i as int), data, p0).0,
                initial_sample,
            ),
            prev == (if i == 0 {
                initial_sample
            } else {
                unxor(decode_residuals(symbols@.take(i as int), data, p0).0, initial_sample).last()
            }),
            decode_residuals(symbols@.take(i as int), data, p0).0.len() == i,
        decreases symbols@.len() - i,
    {
        let sym: u8 = symbols[i];
        let xor_diff: u64 = reconstruct_residual_u64(sym, reader);
        let val: u64 = prev ^ xor_diff;
        samples_out.push(val);
        proof {
            let t1 = symbols@.take(i + 1);
            assert(t1.drop_last() =~= symbols@.take(i as int));
            assert(t1.last() == sym);
            let zs = decode_residuals(t1, data, p0).0;
            assert(zs.drop_last() =~= decode_residuals(symbols@.take(i as int), data, p0).0);
            lemma_unxor_len(zs.drop_last(), initial_sample);
            assert(samples_out@ =~= old(samples_out)@ + unxor(zs, initial_sample));
        }
        prev = val;
        i = i + 1;
    }
    proof {
        assert(symbols@.take(symbols@.len() as int) =~= symbols@);
    }
}


/// The two samples before the next one when rebuilding second differences:
/// the most recent first.
pub open spec fn last_two(pre: Seq<i64>, p1: i64, p2: i64) -> (i64, i64) {
    if pre.len() == 0 {
        (p1, p2)
    } else if pre.len() == 1 {
        (pre[0], p1)
    } else {
        (pre[pre.len() - 1], pre[pre.len() - 2])
    }
}

/// Samples rebuilt from delta-of-delta residuals: each sample is the linear
/// extrapolation `2 * a - b` of the two before it plus its residual (all
/// wrapping).
pub open spec fn undelta2(zs: Seq<u64>, p1: i64, p2: i64) -> Seq<i64>
    decreases zs.len(),
{
    if zs.len() == 0 {
        Seq::empty()
    } else {
        let pre = undelta2(zs.drop_last(), p1, p2);
        let (a, b) = last_two(pre, p1, p2);
        pre.push(a.wrapping_add(a.wrapping_sub(b)).wrapping_add(unzigzag64(zs.last() as int) as i64))
    }
}

/// The linear extrapolation `2 * a - b` (wrapping) for sample `i` of a block,
/// from the two samples before it.
pub open spec fn delta2_prediction(samples: Seq<i64>, p1: i64, p2: i64, i: int) -> i64 {
    let (a, b) = last_two(samples.take(i), p1, p2);
    a.wrapping_add(a.wrapping_sub(b))
}

/// Delta-of-delta residuals: zigzag of each sample's wrapping difference to
/// its linear extrapolation; `p1` is the sample before the block and `p2` the
/// one before it.
pub open spec fn delta2_residuals(samples: Seq<i64>, p1: i64, p2: i64) -> Seq<u64> {
    Seq::new(
        samples.len(),
        |i: int|
            zigzag64(samples[i].wrapping_sub(delta2_prediction(samples, p1, p2, i)) as int) as u64,
    )
}

/// Delta-of-delta decoding inverts delta-of-delta encoding.
pub proof fn lemma_delta2_roundtrip(samples: Seq<i64>, p1: i64, p2: i64)
    ensures
        undelta2(delta2_residuals(samples, p1, p2), p1, p2) == samples,
    decreases samples.len(),
{
    if samples.len() > 0 {
        let n = samples.len() - 1;
        let pre = samples.drop_last();
        assert forall|i: int| 0 <= i < n implies pre.take(i) == samples.take(i) by {
            assert(pre.take(i) =~= samples.take(i));
        }
        assert(delta2_residuals(samples, p1, p2).drop_last() =~= delta2_residuals(pre, p1, p2));
        lemma_delta2_roundtrip(pre, p1, p2);
        assert(samples.take(n) =~= pre);
        let pred = delta2_prediction(samples, p1, p2, n);
        let d = samples[n].wrapping_sub(pred);
        lemma_zigzag_roundtrip(d as int);
        assert(zigzag64(d as int) < 0x1_0000_0000_0000_0000);
        assert(pred.wrapping_add(d) == samples[n]);
        assert(pre.push(samples[n]) =~= samples);
    }
}

/// Delta-of-delta residual symbols, one per sample, and their extra bits.
fn encode_delta2_units(
    samples: &[i64],
    prev1: i64,
    prev2: i64,
    symbols_out: &mut Vec<u8>,
    writer: &mut BitWriter,
)
    requires
        old(writer).wf(),
    ensures
        final(writer).wf(),
        final(symbols_out)@ == old(symbols_out)@ + symbols_of(
            delta2_residuals(samples@, prev1, prev2),
        ),
        final(writer).value() == old(writer).value() + pow2(old(writer).bit_len()) * packed(
            extras_of(delta2_residuals(samples@, prev1, prev2)),
        ),
        final(writer).bit_len() == old(writer).bit_len() + total_bits(
            extras_of(delta2_residuals(samples@, prev1, prev2)),
        ),
{
    let ghost rs = delta2_residuals(samples@, prev1, prev2);
    let ghost xs = extras_of(rs);
    let ghost v0 = writer.value();
    let ghost b0 = writer.bit_len();
    let mut a: i64 = prev1;
    let mut b: i64 = prev2;
    let mut i: usize = 0;
    proof {
        assert(xs.take(0) =~= Seq::<(u64, u8)>::empty());
        assert(pow2(b0) * 0 == 0) by (nonlinear_arith);
        assert(samples@.take(0) =~= Seq::<i64>::empty());
    }
    while i < samples.len()
        invariant
            i <= samples@.len(),
            rs == delta2_residuals(samples@, prev1, prev2),
            xs == extras_of(rs),
            (a, b) == last_two(samples@.take(i as int), prev1, prev2),
            writer.wf(),
            symbols_out@ == old(symbols_out)@ + symbols_of(rs).take(i as int),
            writer.value() == v0 + pow2(b0) * packed(xs.take(i as int)),
            writer.bit_len() == b0 + total_bits(xs.take(i as int)),
        decreases samples@.len() - i,
    {
        let val: i64 = samples[i];
        let pred: i64 = a.wrapping_add(a.wrapping_sub(b));
        let e: i64 = val.wrapping_sub(pred);
        let z: u64 = zigzag_encode_i64(e);
        emit_residual(z, symbols_out, writer);
        proof {
            assert(z == rs[i as int]);
            lemma_packed_take_step(xs, i as int, v0, b0, writer.value());
            assert(symbols_out@ =~= old(symbols_out)@ + symbols_of(rs).take(i + 1));
            let t1 = samples@.take(i + 1);
            assert(t1.drop_last() =~= samples@.take(i as int));
            assert(t1.last() == val);
            if i >= 1 {
                assert(t1[t1.len() - 2] == samples@.take(i as int)[i - 1]);
            }
        }
        b = a;
        a = val;
        i = i + 1;
    }
    proof {
        assert(xs.take(samples@.len() as int) =~= xs);
        assert(symbols_of(rs).take(samples@.len() as int) =~= symbols_of(rs));
    }
}

/// Delta-of-delta encoding: `prev1` is the sample just before the block and
/// `prev2` the one before it; runs of zero residuals are packed into run
/// symbols.
pub fn encode_delta2_i64_block(
    samples: &[i64],
    prev1: i64,
    prev2: i64,
    symbols_out: &mut Vec<u8>,
    writer: &mut BitWriter,
)
    requires
        old(writer).wf(),
    ensures
        final(writer).wf(),
        final(symbols_out)@ == old(symbols_out)@ + pack_runs(
            symbols_of(delta2_residuals(samples@, prev1, prev2)),
        ),
        final(writer).value() == old(writer).value() + pow2(old(writer).bit_len()) * packed(
            extras_of(delta2_residuals(samples@, prev1, prev2)),
        ),
        final(writer).bit_len() == old(writer).bit_len() + total_bits(
            extras_of(delta2_residuals(samples@, prev1, prev2)),
        ),
{
    let mut units: Vec<u8> = Vec::new();
    encode_delta2_units(samples, prev1, prev2, &mut units, writer);
    pack_zero_runs(units.as_slice(), symbols_out);
}

pub proof fn lemma_undelta2_len(zs: Seq<u64>, p1: i64, p2: i64)
    ensures
        undelta2(zs, p1, p2).len() == zs.len(),
    decreases zs.len(),
{
    if zs.len() > 0 {
        lemma_undelta2_len(zs.drop_last(), p1, p2);
    }
}

/// Delta-of-delta decoding of one symbol per sample.
fn decode_delta2_units(
    symbols: &[u8],
    prev1: i64,
    prev2: i64,
    reader: &mut BitReader,
    samples_out: &mut Vec<i64>,
)
    requires
        old(reader).wf(),
    ensures
        final(reader).wf(),
        final(reader).data() == old(reader).data(),
        final(samples_out)@ == old(samples_out)@ + undelta2(
            decode_residuals(symbols@, old(reader).data(), old(reader).bit_pos()).0,
            prev1,
            prev2,
        ),
        final(reader).bit_pos() == decode_residuals(
            symbols@,
            old(reader).data(),
            old(reader).bit_pos(),
        ).1,
{
    let ghost data = reader.data();
    let ghost p0 = reader.bit_pos();
    let mut a: i64 = prev1;
    let mut b: i64 = prev2;
    let mut i: usize = 0;
    proof {
        assert(symbols@.take(0) =~= Seq::<u8>::empty());
    }
    while i < symbols.len()
        invariant
            i <= symbols@.len(),
            reader.wf(),
            reader.data() == data,
            reader.bit_pos() == decode_residuals(symbols@.take(i as int), data, p0).1,
            samples_out@ == old(samples_out)@ + undelta2(
                decode_residuals(symbols@.take(i as int), data, p0).0,
                prev1,
                prev2,
            ),
            (a, b) == last_two(
                undelta2(decode_residuals(symbols@.take(i as int), data, p0).0, prev1, prev2),
                prev1,
                prev2,
            ),
            decode_residuals(symbols@.take(i as int), data, p0).0.len() == i,
        decreases symbols@.len() - i,
    {
        let sym: u8 = symbols[i];
        let z: u64 = reconstruct_residual_u64(sym, reader);
        let e: i64 = zigzag_decode_i64(z);
        let pred: i64 = a.wrapping_add(a.wrapping_sub(b));
        let val: i64 = pred.wrapping_add(e);
        samples_out.push(val);
        proof {
            let t1 = symbols@.take(i + 1);
            assert(t1.drop_last() =~= symbols@.take(i as int));
            assert(t1.last() == sym);
            let zs = decode_residuals(t1, data, p0).0;
            assert(zs.drop_last() =~= decode_residuals(symbols@.take(i as int), data, p0).0);
            lemma_undelta2_len(zs.drop_last(), prev1, prev2);
            assert(samples_out@ =~= old(samples_out)@ + undelta2(zs, prev1, prev2));
        }
        b = a;
        a = val;
        i = i + 1;
    }
    proof {
        assert(symbols@.take(symbols@.len() as int) =~= symbols@);
    }
}


/// Delta encoding for integer slices (computes wrapping differences and zigzags);
/// runs of zero residuals are packed into run symbols.
pub fn encode_delta_i64_block(
    samples: &[i64],
    initial_sample: i64,
    symbols_out: &mut Vec<u8>,
    writer: &mut BitWriter,
)
    requires
        old(writer).wf(),
    ensures
        final(writer).wf(),
        final(symbols_out)@ == old(symbols_out)@ + pack_runs(
            symbols_of(delta_residuals(samples@, initial_sample)),
        ),
        final(writer).value() == old(writer).value() + pow2(old(writer).bit_len()) * packed(
            extras_of(delta_residuals(samples@, initial_sample)),
        ),
        final(writer).bit_len() == old(writer).bit_len() + total_bits(
            extras_of(delta_residuals(samples@, initial_sample)),
        ),
{
    let mut units: Vec<u8> = Vec::new();
    encode_delta_units(samples, initial_sample, &mut units, writer);
    pack_zero_runs(units.as_slice(), symbols_out);
}

/// Delta decoding for integer slices; run symbols stand for runs of zero residuals.
pub fn decode_delta_i64_block(
    symbols: &[u8],
    initial_sample: i64,
    reader: &mut BitReader,
    samples_out: &mut Vec<i64>,
)
    requires
        old(reader).wf(),
    ensures
        final(reader).wf(),
        final(reader).data() == old(reader).data(),
        final(samples_out)@ == old(samples_out)@ + undelta(
            decode_residuals(expand_runs(symbols@), old(reader).data(), old(reader).bit_pos()).0,
            initial_sample,
        ),
        final(reader).bit_pos() == decode_residuals(
            expand_runs(symbols@),
            old(reader).data(),
            old(reader).bit_pos(),
        ).1,
{
    let units = expand_zero_runs(symbols);
    decode_delta_units(units.as_slice(), initial_sample, reader, samples_out);
}

/// Gorilla XOR encoding for 64-bit float / word bitstreams; runs of zero
/// residuals are packed into run symbols.
pub fn encode_xor_u64_block(
    samples: &[u64],
    initial_sample: u64,
    symbols_out: &mut Vec<u8>,
    writer: &mut BitWriter,
)
    requires
        old(writer).wf(),
    ensures
        final(writer).wf(),
        final(symbols_out)@ == old(symbols_out)@ + pack_runs(
            symbols_of(xor_residuals(samples@, initial_sample)),
        ),
        final(writer).value() == old(writer).value() + pow2(old(writer).bit_len()) * packed(
            extras_of(xor_residuals(samples@, initial_sample)),
        ),
        final(writer).bit_len() == old(writer).bit_len() + total_bits(
            extras_of(xor_residuals(samples@, initial_sample)),
        ),
{
    let mut units: Vec<u8> = Vec::new();
    encode_xor_units(samples, initial_sample, &mut units, writer);
    pack_zero_runs(units.as_slice(), symbols_out);
}

/// Gorilla XOR decoding for 64-bit float / word bitstreams; run symbols
/// stand for runs of zero residuals.
pub fn decode_xor_u64_block(
    symbols: &[u8],
    initial_sample: u64,
    reader: &mut BitReader,
    samples_out: &mut Vec<u64>,
)
    requires
        old(reader).wf(),
    ensures
        final(reader).wf(),
        final(reader).data() == old(reader).data(),
        final(samples_out)@ == old(samples_out)@ + unxor(
            decode_residuals(expand_runs(symbols@), old(reader).data(), old(reader).bit_pos()).0,
            initial_sample,
        ),
        final(reader).bit_pos() == decode_residuals(
            expand_runs(symbols@),
            old(reader).data(),
            old(reader).bit_pos(),
        ).1,
{
    let units = expand_zero_runs(symbols);
    decode_xor_units(units.as_slice(), initial_sample, reader, samples_out);
}

/// Delta-of-delta decoding: `prev1` is the sample just before the block and
/// `prev2` the one before it; run symbols stand for runs of zero residuals.
pub fn decode_delta2_i64_block(
    symbols: &[u8],
    prev1: i64,
    prev2: i64,
    reader: &mut BitReader,
    samples_out: &mut Vec<i64>,
)
    requires
        old(reader).wf(),
    ensures
        final(reader).wf(),
        final(reader).data() == old(reader).data(),
        final(samples_out)@ == old(samples_out)@ + undelta2(
            decode_residuals(expand_runs(symbols@), old(reader).data(), old(reader).bit_pos()).0,
            prev1,
            prev2,
        ),
        final(reader).bit_pos() == decode_residuals(
            expand_runs(symbols@),
            old(reader).data(),
            old(reader).bit_pos(),
        ).1,
{
    let units = expand_zero_runs(symbols);
    decode_delta2_units(units.as_slice(), prev1, prev2, reader, samples_out);
}

/// Every residual symbol is a literal or a bit-width prefix, never a run symbol.
pub proof fn lemma_symbols_not_runs(rs: Seq<u64>)
    ensures
        forall|i: int| 0 <= i < rs.len() ==> #[trigger] symbols_of(rs)[i] <= 192,
{
    assert forall|i: int| 0 <= i < rs.len() implies #[trigger] symbols_of(rs)[i] <= 192 by {
        lemma_classify_roundtrip(rs[i]);
    }
}

} // verus!
