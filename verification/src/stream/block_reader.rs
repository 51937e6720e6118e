//! Block framing reader for compressed and raw blocks.

use vstd::prelude::*;
use crate::entropy::adaptive_table::{AdaptiveTable, TableView, observed_all};
use crate::entropy::rans_decoder::{RansDecoder, rans_decoded};
use crate::le_bytes::{bytes_value, read_le, lemma_pow256_values, lemma_bytes_value_bound};
use crate::predictor::PredictorMode;
use crate::predictor::delta_xor::{decode_delta_i64_block, decode_delta2_i64_block,
    decode_xor_u64_block, decode_residuals, undelta, undelta2, unxor};
use crate::predictor::adaptive_linear::{decode_adaptive_fir_block, fir_undo, fir_initial};
use crate::stream::bitstream::BitReader;
use crate::predictor::zero_run::{expand_runs, expanded_len};

verus! {

/// The 16-bit little-endian field at `o`.
pub open spec fn u16_at(data: Seq<u8>, o: int) -> nat {
    bytes_value(data.subrange(o, o + 2))
}

/// The 64-bit little-endian field at `o`.
pub open spec fn u64_at(data: Seq<u8>, o: int) -> u64 {
    bytes_value(data.subrange(o, o + 8)) as u64
}

/// Signed view of the 64-bit field at `o`.
pub open spec fn i64_at(data: Seq<u8>, o: int) -> i64 {
    u64_at(data, o) as i64
}

/// What reading one block gives.
pub ghost enum BlockRead {
    /// No bytes left at the offset.
    End,
    /// A block was decoded: the offset after it, the words it holds and the
    /// table after the symbols it carries were observed.
    Decoded { next: int, values: Seq<u64>, table: TableView },
    /// The block is malformed: the message, the offset reached when that was
    /// found and the table then (its symbols observed if they were decoded).
    Failed { msg: &'static str, next: int, table: TableView },
}

/// The common part of a coded block: counts and lengths, `fixed` bytes of
/// predictor seed, extra bits, rANS payload.
pub ghost enum CodedRead {
    /// Malformed: the message, the offset reached and the table then.
    Bad { msg: &'static str, next: int, table: TableView },
    Good { count: nat, seed: int, symbols: Seq<u8>, extra: Seq<u8>, next: int },
}

pub open spec fn coded_read(
    data: Seq<u8>,
    o: int,
    fixed: int,
    t: TableView,
    header_msg: &'static str,
    payload_msg: &'static str,
) -> CodedRead {
    if o + 8 + fixed > data.len() {
        CodedRead::Bad { msg: header_msg, next: o, table: t }
    } else {
        let n = u16_at(data, o);
        let sc = u16_at(data, o + 2);
        let el = u16_at(data, o + 4);
        let rl = u16_at(data, o + 6);
        let q = o + 8 + fixed;
        if q + el + rl > data.len() {
            CodedRead::Bad { msg: payload_msg, next: q, table: t }
        } else if rl < 4 {
            CodedRead::Bad { msg: "Payload too short for rANS state", next: q + el + rl, table: t }
        } else {
            let symbols = rans_decoded(data.subrange(q + el, q + el + rl), sc, t);
            if expand_runs(symbols).len() != n {
                CodedRead::Bad {
                    msg: "Decoded residual count does not match block sample count",
                    next: q + el + rl,
                    table: observed_all(t, symbols),
                }
            } else {
                CodedRead::Good {
                    count: n,
                    seed: o + 8,
                    symbols,
                    extra: data.subrange(q, q + el),
                    next: q + el + rl,
                }
            }
        }
    }
}

/// Signed samples as words.
pub open spec fn words_of(xs: Seq<i64>) -> Seq<u64> {
    Seq::new(xs.len(), |i: int| xs[i] as u64)
}

/// Extending `out` by `n` words, each a copy of the word `dist` places back.
pub open spec fn repeat_history(out: Seq<u64>, dist: nat, n: nat) -> Seq<u64>
    decreases n,
{
    if n == 0 {
        out
    } else {
        let o = repeat_history(out, dist, (n - 1) as nat);
        o.push(o[o.len() - dist])
    }
}

/// What reading a decimal float block gives.
pub ghost enum DecimalRead {
    /// The block is malformed: the message, the offset reached when that was
    /// found and the table then.
    Failed { msg: &'static str, next: int, table: TableView },
    /// The offset after the block, its scale code (the samples are the values
    /// divided by ten to that power), its delta-coded values and the table
    /// after its symbols were observed.
    Decoded { next: int, scale: u8, values: Seq<i64>, table: TableView },
}

/// Reading the decimal float block whose mode byte is at `off`:
/// `[8][scale code][count: u16][symbol count: u16][extra-bits length: u16]
/// [rANS payload length: u16][first value: 8 bytes][extra bits][rANS payload]`.
pub open spec fn decimal_read(data: Seq<u8>, off: int, t: TableView) -> DecimalRead {
    let o = off + 1;
    if o + 17 > data.len() {
        DecimalRead::Failed { msg: "Truncated decimal float block header", next: o, table: t }
    } else if o + 17 + u16_at(data, o + 5) + u16_at(data, o + 7) > data.len() {
        DecimalRead::Failed { msg: "Truncated decimal float block payloads", next: o + 17, table: t }
    } else if data[o] >= 7 {
        DecimalRead::Failed { msg: "Invalid decimal float scale code", next: o + 17, table: t }
    } else {
        match coded_read(
            data,
            o + 1,
            8,
            t,
            "Truncated decimal float block header",
            "Truncated decimal float block payloads",
        ) {
            CodedRead::Bad { msg, next, table } => DecimalRead::Failed { msg, next, table },
            CodedRead::Good { count, seed, symbols, extra, next } => DecimalRead::Decoded {
                next,
                scale: data[o],
                values: undelta(decode_residuals(expand_runs(symbols), extra, 0).0, i64_at(data, seed)),
                table: observed_all(t, symbols),
            },
        }
    }
}

/// Reading one block of `data` at `off` with table `t`, after `out` was decoded.
#[verifier::opaque]
pub open spec fn read_block(data: Seq<u8>, off: int, t: TableView, out: Seq<u64>) -> BlockRead {
    if off >= data.len() {
        BlockRead::End
    } else {
        let mode = data[off];
        let o = off + 1;
        if mode == 0 {
            if o + 2 > data.len() {
                BlockRead::Failed { msg: "Truncated raw block header", next: o, table: t }
            } else {
                let n = u16_at(data, o);
                if o + 2 + 8 * n > data.len() {
                    BlockRead::Failed { msg: "Truncated raw block payload", next: o + 2, table: t }
                } else {
                    BlockRead::Decoded {
                        next: o + 2 + 8 * n,
                        values: Seq::new(n, |i: int| u64_at(data, o + 2 + 8 * i)),
                        table: t,
                    }
                }
            }
        } else if mode == 4 {
            if o + 10 > data.len() {
                BlockRead::Failed { msg: "Truncated constant block header", next: o, table: t }
            } else {
                let n = u16_at(data, o);
                let v = u64_at(data, o + 2);
                BlockRead::Decoded { next: o + 10, values: Seq::new(n, |i: int| v), table: t }
            }
        } else if mode == 6 {
            if o + 18 > data.len() {
                BlockRead::Failed { msg: "Truncated linear ramp block header", next: o, table: t }
            } else {
                let n = u16_at(data, o);
                let start = i64_at(data, o + 2);
                let delta = i64_at(data, o + 10);
                BlockRead::Decoded {
                    next: o + 18,
                    values: Seq::new(
                        n,
                        |i: int| start.wrapping_add((i as i64).wrapping_mul(delta)) as u64,
                    ),
                    table: t,
                }
            }
        } else if mode == 7 {
            if o + 4 > data.len() {
                BlockRead::Failed { msg: "Truncated repeat history block header", next: o, table: t }
            } else {
                let n = u16_at(data, o);
                let dist = u16_at(data, o + 2);
                if dist == 0 || dist > out.len() {
                    BlockRead::Failed { msg: "Invalid history repeat distance", next: o + 4, table: t }
                } else {
                    BlockRead::Decoded {
                        next: o + 4,
                        values: repeat_history(out, dist, n).skip(out.len() as int),
                        table: t,
                    }
                }
            }
        } else if mode == 1 {
            match coded_read(
                data,
                o,
                8,
                t,
                "Truncated delta block header",
                "Truncated delta block payloads",
            ) {
                CodedRead::Bad { msg, next, table } => BlockRead::Failed { msg, next, table },
                CodedRead::Good { count, seed, symbols, extra, next } => BlockRead::Decoded {
                    next,
                    values: words_of(
                        undelta(decode_residuals(expand_runs(symbols), extra, 0).0, i64_at(data, seed)),
                    ),
                    table: observed_all(t, symbols),
                },
            }
        } else if mode == 5 {
            match coded_read(
                data,
                o,
                16,
                t,
                "Truncated delta-of-delta block header",
                "Truncated delta-of-delta block payloads",
            ) {
                CodedRead::Bad { msg, next, table } => BlockRead::Failed { msg, next, table },
                CodedRead::Good { count, seed, symbols, extra, next } => BlockRead::Decoded {
                    next,
                    values: words_of(
                        undelta2(
                            decode_residuals(expand_runs(symbols), extra, 0).0,
                            i64_at(data, seed),
                            i64_at(data, seed + 8),
                        ),
                    ),
                    table: observed_all(t, symbols),
                },
            }
        } else if mode == 3 {
            match coded_read(
                data,
                o,
                24,
                t,
                "Truncated adaptive FIR block header",
                "Truncated adaptive FIR block payloads",
            ) {
                CodedRead::Bad { msg, next, table } => BlockRead::Failed { msg, next, table },
                CodedRead::Good { count, seed, symbols, extra, next } => BlockRead::Decoded {
                    next,
                    values: words_of(
                        fir_undo(
                            decode_residuals(expand_runs(symbols), extra, 0).0,
                            fir_initial(
                                seq![
                                    i64_at(data, seed),
                                    i64_at(data, seed + 8),
                                    i64_at(data, seed + 16),
                                ],
                            ),
                        ).0,
                    ),
                    table: observed_all(t, symbols),
                },
            }
        } else if mode == 2 {
            match coded_read(
                data,
                o,
                8,
                t,
                "Truncated XOR block header",
                "Truncated XOR block payloads",
            ) {
                CodedRead::Bad { msg, next, table } => BlockRead::Failed { msg, next, table },
                CodedRead::Good { count, seed, symbols, extra, next } => BlockRead::Decoded {
                    next,
                    values: unxor(decode_residuals(expand_runs(symbols), extra, 0).0, u64_at(data, seed)),
                    table: observed_all(t, symbols),
                },
            }
        } else if mode == 8 {
            match decimal_read(data, off, t) {
                DecimalRead::Failed { msg, next, table } => BlockRead::Failed { msg, next, table },
                DecimalRead::Decoded { next, table, .. } => BlockRead::Failed {
                    msg: "Decimal float blocks need floating-point conversion",
                    next,
                    table,
                },
            }
        } else {
            BlockRead::Failed { msg: "Unknown predictor mode", next: o, table: t }
        }
    }
}


pub(crate) fn read_u16_at(data: &[u8], o: usize) -> (v: usize)
    requires
        o + 2 <= data@.len(),
    ensures
        v as nat == u16_at(data@, o as int),
        v < 65536,
{
    let v = read_le(data, o, 2);
    proof {
        lemma_bytes_value_bound(data@.subrange(o as int, o + 2));
        lemma_pow256_values();
    }
    v as usize
}

fn read_u64_at(data: &[u8], o: usize) -> (v: u64)
    requires
        o + 8 <= data@.len(),
    ensures
        v == u64_at(data@, o as int),
{
    let v = read_le(data, o, 8);
    v
}

/// Validates the common part of a coded block at `o`, decodes its symbols and
/// observes them: the sample count, the symbols, where the extra bits start,
/// their length and the offset after the block; or the error and the offset
/// reached.
fn read_coded(
    data: &[u8],
    o: usize,
    fixed: usize,
    table: &mut AdaptiveTable,
    header_msg: &'static str,
    payload_msg: &'static str,
) -> (r: Result<(usize, Vec<u8>, usize, usize, usize), (&'static str, usize)>)
    requires
        old(table)@.wf(),
        o <= data@.len(),
        fixed <= 24,
    ensures
        final(table)@.wf(),
        match coded_read(data@, o as int, fixed as int, old(table)@, header_msg, payload_msg) {
            CodedRead::Bad { msg, next, table: t } => {
                &&& r matches Err(e) && e.0 == msg && e.1 == next
                &&& final(table)@ == t
            },
            CodedRead::Good { count, seed, symbols, extra, next } => {
                &&& r is Ok
                &&& r->Ok_0.0 == count
                &&& r->Ok_0.1@ == symbols
                &&& r->Ok_0.2 + r->Ok_0.3 <= data@.len()
                &&& data@.subrange(r->Ok_0.2 as int, r->Ok_0.2 + r->Ok_0.3) == extra
                &&& r->Ok_0.4 == next
                &&& seed == o + 8
                &&& next <= data@.len()
                &&& final(table)@ == observed_all(old(table)@, symbols)
            },
        },
{
    if data.len() - o < 8 + fixed {
        return Err((header_msg, o));
    }
    let n = read_u16_at(data, o);
    let sc = read_u16_at(data, o + 2);
    let el = read_u16_at(data, o + 4);
    let rl = read_u16_at(data, o + 6);
    let q: usize = o + 8 + fixed;
    if data.len() - q < el + rl {
        return Err((payload_msg, q));
    }
    let next: usize = q + el + rl;
    if rl < 4 {
        return Err(("Payload too short for rANS state", next));
    }
    let rans_bytes = &data[q + el..q + el + rl];
    match RansDecoder::new(rans_bytes) {
        Ok(mut dec) => {
            let ghost x0 = dec.state as nat;
            let ghost c0 = dec.cursor as nat;
            let ghost b0 = dec.bytes@;
            let symbols = dec.decode_block(sc, table);
            proof {
                crate::entropy::rans_decoder::lemma_dec_all_len(x0, b0, c0, sc as nat, table@);
                assert(rans_bytes@ =~= data@.subrange((q + el) as int, (q + el + rl) as int));
            }
            table.observe_all(symbols.as_slice());
            if expanded_len(symbols.as_slice()) != n as u64 {
                return Err(("Decoded residual count does not match block sample count", next));
            }
            Ok((n, symbols, q, el, next))
        },
        Err(e) => Err((e, next)),
    }
}

/// Appends signed samples as words.
fn push_words(vals: &Vec<i64>, samples_out: &mut Vec<u64>)
    ensures
        final(samples_out)@ == old(samples_out)@ + words_of(vals@),
{
    let mut i: usize = 0;
    while i < vals.len()
        invariant
            i <= vals@.len(),
            samples_out@ == old(samples_out)@ + words_of(vals@).take(i as int),
        decreases vals@.len() - i,
    {
        samples_out.push(vals[i] as u64);
        proof {
            assert(samples_out@ =~= old(samples_out)@ + words_of(vals@).take(i + 1));
        }
        i = i + 1;
    }
    proof {
        assert(words_of(vals@).take(vals@.len() as int) =~= words_of(vals@));
    }
}

pub struct BlockReader;

impl BlockReader {
    /// Read one block from `data[*offset..]` and append decoded `u64` words to `samples_out`.
    /// Returns Ok(true) if a block was decoded, Ok(false) if end of data reached,
    /// or Err(&str) if corrupted (the offset then is where the fault was
    /// found, and the table has observed the block's symbols if they were
    /// decoded).
    pub fn read_block_u64(
        data: &[u8],
        offset: &mut usize,
        table: &mut AdaptiveTable,
        samples_out: &mut Vec<u64>,
    ) -> (r: Result<bool, &'static str>)
        requires
            old(table)@.wf(),
        ensures
            final(table)@.wf(),
            match read_block(data@, *old(offset) as int, old(table)@, old(samples_out)@) {
                BlockRead::End => {
                    &&& r == Ok::<bool, &'static str>(false)
                    &&& *final(offset) == *old(offset)
                    &&& final(table)@ == old(table)@
                    &&& final(samples_out)@ == old(samples_out)@
                },
                BlockRead::Decoded { next, values, table: t } => {
                    &&& r == Ok::<bool, &'static str>(true)
                    &&& *final(offset) == next
                    &&& final(table)@ == t
                    &&& final(samples_out)@ == old(samples_out)@ + values
                },
                BlockRead::Failed { msg, next, table: t } => {
                    &&& r == Err::<bool, &'static str>(msg)
                    &&& *final(offset) == next
                    &&& final(table)@ == t
                    &&& final(samples_out)@ == old(samples_out)@
                },
            },
    {
        proof {
            reveal(read_block);
        }
        if *offset >= data.len() {
            return Ok(false);
        }
        let off: usize = *offset;
        let mode_byte: u8 = data[off];
        let o: usize = off + 1;
        let mode = match PredictorMode::from_u8(mode_byte) {
            Some(m) => m,
            None => {
                *offset = o;
                return Err("Unknown predictor mode");
            },
        };
        match mode {
            PredictorMode::Raw => {
                if data.len() - o < 2 {
                    *offset = o;
                    return Err("Truncated raw block header");
                }
                let sample_count = read_u16_at(data, o);
                let payload_len: usize = sample_count * 8;
                if data.len() - o - 2 < payload_len {
                    *offset = o + 2;
                    return Err("Truncated raw block payload");
                }
                let ghost vals = Seq::new(
                    sample_count as nat,
                    |i: int| u64_at(data@, o + 2 + 8 * i),
                );
                let mut i: usize = 0;
                while i < sample_count
                    invariant
                        i <= sample_count < 65536,
                        o + 2 + 8 * sample_count <= data.len(),
                        vals == Seq::new(sample_count as nat, |i: int| u64_at(data@, o + 2 + 8 * i)),
                        samples_out@ == old(samples_out)@ + vals.take(i as int),
                    decreases sample_count - i,
                {
                    let val = read_u64_at(data, o + 2 + i * 8);
                    samples_out.push(val);
                    proof {
                        assert(samples_out@ =~= old(samples_out)@ + vals.take(i + 1));
                    }
                    i = i + 1;
                }
                proof {
                    assert(vals.take(sample_count as int) =~= vals);
                }
                *offset = o + 2 + payload_len;
                Ok(true)
            },
            PredictorMode::Constant => {
                if data.len() - o < 10 {
                    *offset = o;
                    return Err("Truncated constant block header");
                }
                let sample_count = read_u16_at(data, o);
                let val = read_u64_at(data, o + 2);
                let mut i: usize = 0;
                while i < sample_count
                    invariant
                        i <= sample_count,
                        samples_out@ == old(samples_out)@ + Seq::new(i as nat, |k: int| val),
                    decreases sample_count - i,
                {
                    samples_out.push(val);
                    proof {
                        assert(samples_out@ =~= old(samples_out)@ + Seq::new((i + 1) as nat, |k: int| val));
                    }
                    i = i + 1;
                }
                *offset = o + 10;
                Ok(true)
            },
            PredictorMode::LinearRamp => {
                if data.len() - o < 18 {
                    *offset = o;
                    return Err("Truncated linear ramp block header");
                }
                let sample_count = read_u16_at(data, o);
                let start_val: i64 = read_u64_at(data, o + 2) as i64;
                let delta: i64 = read_u64_at(data, o + 10) as i64;
                let ghost vals = Seq::new(
                    sample_count as nat,
                    |i: int| start_val.wrapping_add((i as i64).wrapping_mul(delta)) as u64,
                );
                let mut i: usize = 0;
                while i < sample_count
                    invariant
                        i <= sample_count < 65536,
                        vals == Seq::new(
                            sample_count as nat,
                            |i: int| start_val.wrapping_add((i as i64).wrapping_mul(delta)) as u64,
                        ),
                        samples_out@ == old(samples_out)@ + vals.take(i as int),
                    decreases sample_count - i,
                {
                    let val: i64 = start_val.wrapping_add((i as i64).wrapping_mul(delta));
                    samples_out.push(val as u64);
                    proof {
                        assert(samples_out@ =~= old(samples_out)@ + vals.take(i + 1));
                    }
                    i = i + 1;
                }
                proof {
                    assert(vals.take(sample_count as int) =~= vals);
                }
                *offset = o + 18;
                Ok(true)
            },
            PredictorMode::RepeatHistory => {
                if data.len() - o < 4 {
                    *offset = o;
                    return Err("Truncated repeat history block header");
                }
                let sample_count = read_u16_at(data, o);
                let dist = read_u16_at(data, o + 2);
                if dist == 0 || dist > samples_out.len() {
                    *offset = o + 4;
                    return Err("Invalid history repeat distance");
                }
                let ghost start = samples_out@;
                let mut i: usize = 0;
                while i < sample_count
                    invariant
                        i <= sample_count,
                        1 <= dist <= start.len(),
                        samples_out@ == repeat_history(start, dist as nat, i as nat),
                        samples_out@.len() == start.len() + i,
                    decreases sample_count - i,
                {
                    let len = samples_out.len();
                    let val: u64 = samples_out[len - dist];
                    samples_out.push(val);
                    i = i + 1;
                }
                proof {
                    lemma_repeat_history_prefix(start, dist as nat, sample_count as nat);
                    assert(samples_out@ =~= start + repeat_history(start, dist as nat, sample_count as nat).skip(start.len() as int));
                }
                *offset = o + 4;
                Ok(true)
            },
            PredictorMode::Delta => {
                let (sample_count, symbols, es, el, next) = match read_coded(
                    data,
                    o,
                    8,
                    table,
                    "Truncated delta block header",
                    "Truncated delta block payloads",
                ) {
                    Ok(x) => x,
                    Err(e) => {
                        *offset = e.1;
                        return Err(e.0);
                    },
                };
                let initial_sample: i64 = read_u64_at(data, o + 8) as i64;
                let extra = &data[es..es + el];
                let mut reader = BitReader::new(extra);
                let mut decoded: Vec<i64> = Vec::with_capacity(sample_count);
                decode_delta_i64_block(symbols.as_slice(), initial_sample, &mut reader, &mut decoded);
                push_words(&decoded, samples_out);
                *offset = next;
                Ok(true)
            },
            PredictorMode::DeltaOfDelta => {
                let (sample_count, symbols, es, el, next) = match read_coded(
                    data,
                    o,
                    16,
                    table,
                    "Truncated delta-of-delta block header",
                    "Truncated delta-of-delta block payloads",
                ) {
                    Ok(x) => x,
                    Err(e) => {
                        *offset = e.1;
                        return Err(e.0);
                    },
                };
                let prev1: i64 = read_u64_at(data, o + 8) as i64;
                let prev2: i64 = read_u64_at(data, o + 16) as i64;
                let extra = &data[es..es + el];
                let mut reader = BitReader::new(extra);
                let mut decoded: Vec<i64> = Vec::with_capacity(sample_count);
                decode_delta2_i64_block(symbols.as_slice(), prev1, prev2, &mut reader, &mut decoded);
                push_words(&decoded, samples_out);
                *offset = next;
                Ok(true)
            },
            PredictorMode::AdaptiveLinear => {
                let (sample_count, symbols, es, el, next) = match read_coded(
                    data,
                    o,
                    24,
                    table,
                    "Truncated adaptive FIR block header",
                    "Truncated adaptive FIR block payloads",
                ) {
                    Ok(x) => x,
                    Err(e) => {
                        *offset = e.1;
                        return Err(e.0);
                    },
                };
                let h0: i64 = read_u64_at(data, o + 8) as i64;
                let h1: i64 = read_u64_at(data, o + 16) as i64;
                let h2: i64 = read_u64_at(data, o + 24) as i64;
                let extra = &data[es..es + el];
                let mut reader = BitReader::new(extra);
                let mut decoded: Vec<i64> = Vec::with_capacity(sample_count);
                let hist: [i64; 3] = [h0, h1, h2];
                proof {
                    assert(hist@ =~= seq![h0, h1, h2]);
                }
                decode_adaptive_fir_block(symbols.as_slice(), hist, &mut reader, &mut decoded);
                push_words(&decoded, samples_out);
                *offset = next;
                Ok(true)
            },
            PredictorMode::Xor => {
                let (sample_count, symbols, es, el, next) = match read_coded(
                    data,
                    o,
                    8,
                    table,
                    "Truncated XOR block header",
                    "Truncated XOR block payloads",
                ) {
                    Ok(x) => x,
                    Err(e) => {
                        *offset = e.1;
                        return Err(e.0);
                    },
                };
                let initial_sample: u64 = read_u64_at(data, o + 8);
                let extra = &data[es..es + el];
                let mut reader = BitReader::new(extra);
                decode_xor_u64_block(symbols.as_slice(), initial_sample, &mut reader, samples_out);
                *offset = next;
                Ok(true)
            },
            PredictorMode::DecimalFloat => {
                if data.len() - o < 17 {
                    *offset = o;
                    return Err("Truncated decimal float block header");
                }
                let el = read_u16_at(data, o + 5);
                let rl = read_u16_at(data, o + 7);
                if data.len() - o - 17 < el + rl {
                    *offset = o + 17;
                    return Err("Truncated decimal float block payloads");
                }
                if data[o] >= 7 {
                    *offset = o + 17;
                    return Err("Invalid decimal float scale code");
                }
                match read_coded(
                    data,
                    o + 1,
                    8,
                    table,
                    "Truncated decimal float block header",
                    "Truncated decimal float block payloads",
                ) {
                    Ok(x) => {
                        *offset = x.4;
                        Err("Decimal float blocks need floating-point conversion")
                    },
                    Err(e) => {
                        *offset = e.1;
                        Err(e.0)
                    },
                }
            },
        }
    }

    /// Read the decimal float block at `data[*offset..]`: append its values to
    /// `values_out` and return its scale code (each sample is its value
    /// divided by ten to that power), or the error (the offset then is where
    /// the fault was found, and the table has observed the block's symbols if
    /// they were decoded).
    pub fn read_decimal_block(
        data: &[u8],
        offset: &mut usize,
        table: &mut AdaptiveTable,
        values_out: &mut Vec<i64>,
    ) -> (r: Result<u8, &'static str>)
        requires
            old(table)@.wf(),
            *old(offset) < data@.len(),
            data@[*old(offset) as int] == 8,
        ensures
            final(table)@.wf(),
            match decimal_read(data@, *old(offset) as int, old(table)@) {
                DecimalRead::Decoded { next, scale, values, table: t } => {
                    &&& r == Ok::<u8, &'static str>(scale)
                    &&& *final(offset) == next
                    &&& final(table)@ == t
                    &&& final(values_out)@ == old(values_out)@ + values
                },
                DecimalRead::Failed { msg, next, table: t } => {
                    &&& r == Err::<u8, &'static str>(msg)
                    &&& *final(offset) == next
                    &&& final(table)@ == t
                    &&& final(values_out)@ == old(values_out)@
                },
            },
    {
        let off: usize = *offset;
        let len: usize = data.len();
        let o: usize = off + 1;
        if len - o < 17 {
            *offset = o;
            return Err("Truncated decimal float block header");
        }
        let el = read_u16_at(data, o + 5);
        let rl = read_u16_at(data, o + 7);
        if data.len() - o - 17 < el + rl {
            *offset = o + 17;
            return Err("Truncated decimal float block payloads");
        }
        let scale: u8 = data[o];
        if scale >= 7 {
            *offset = o + 17;
            return Err("Invalid decimal float scale code");
        }
        let (sample_count, symbols, es, el2, next) = match read_coded(
            data,
            o + 1,
            8,
            table,
            "Truncated decimal float block header",
            "Truncated decimal float block payloads",
        ) {
            Ok(x) => x,
            Err(e) => {
                *offset = e.1;
                return Err(e.0);
            },
        };
        let initial_sample: i64 = read_u64_at(data, o + 9) as i64;
        let extra = &data[es..es + el2];
        let mut reader = BitReader::new(extra);
        decode_delta_i64_block(symbols.as_slice(), initial_sample, &mut reader, values_out);
        *offset = next;
        Ok(scale)
    }
}

pub proof fn lemma_repeat_history_prefix(out: Seq<u64>, dist: nat, n: nat)
    ensures
        repeat_history(out, dist, n).len() == out.len() + n,
        repeat_history(out, dist, n).take(out.len() as int) == out,
    decreases n,
{
    if n > 0 {
        lemma_repeat_history_prefix(out, dist, (n - 1) as nat);
        let o = repeat_history(out, dist, (n - 1) as nat);
        assert(o.push(o[o.len() - dist]).take(out.len() as int) =~= o.take(out.len() as int));
    } else {
        assert(out.take(out.len() as int) =~= out);
    }
}

} // verus!

verus! {

/// A decoded block ends after its start and within the data; only an
/// offset past the data reads as the end.
pub proof fn lemma_read_block_advances(data: Seq<u8>, off: int, t: TableView, out: Seq<u64>)
    requires
        0 <= off,
    ensures
        read_block(data, off, t, out) is End <==> off >= data.len(),
        read_block(data, off, t, out) matches BlockRead::Decoded { next, .. } ==> off < next
            <= data.len(),
{
    reveal(read_block);
}

} // verus!
