//! Reading a block back gives the samples that were written and leaves the
//! decoder's table equal to the encoder's.

use vstd::prelude::*;
use crate::entropy::adaptive_table::{TableView};
use crate::entropy::rans_encoder::{rans_payload};
use crate::entropy::rans_decoder::{lemma_rans_roundtrip};
use crate::le_bytes::{le_bytes, lemma_le_bytes_roundtrip, lemma_le_bytes_len, lemma_pow256_values};
use crate::predictor::delta_xor::{delta_residuals, xor_residuals, symbols_of, extras_of,
    decode_residuals, lemma_residuals_roundtrip, lemma_delta_roundtrip, lemma_xor_roundtrip};
use crate::predictor::adaptive_linear::{fir_run, fir_initial, lemma_fir_roundtrip};
use crate::predictor::delta_xor::{classify, residual_value, extra_count, lemma_classify_roundtrip,
    lemma_symbols_not_runs, delta2_residuals, lemma_delta2_roundtrip};
use crate::predictor::PredictorMode;
use crate::predictor::selector::{block_mode, all_equal, is_ramp, ramp_step};
use crate::predictor::zero_run::{pack_runs, expand_runs, lemma_pack_expand};
use crate::stream::bitstream::{read_val, lemma_bits_roundtrip, packed, total_bits, lemma_packed_bound, lemma_pow256_is_pow2};
use crate::stream::block_writer::{coded_block, coded_is_smaller, raw_block, words_le, as_words,
    extra_bytes_of, delta_block, fir_block, xor_block, history_bytes, auto_block, constant_block,
    ramp_block, delta2_block, delta2_seed};
use crate::stream::block_reader::{read_block, BlockRead, coded_read, CodedRead, u16_at, u64_at,
    i64_at, words_of};

verus! {

pub proof fn lemma_words_le(ws: Seq<u64>)
    ensures
        words_le(ws).len() == 8 * ws.len(),
        forall|i: int|
            0 <= i < ws.len() ==> #[trigger] words_le(ws).subrange(8 * i, 8 * i + 8) == le_bytes(
                ws[i] as nat,
                8,
            ),
    decreases ws.len(),
{
    if ws.len() > 0 {
        let pre = ws.drop_last();
        lemma_words_le(pre);
        lemma_le_bytes_len(ws.last() as nat, 8);
        assert forall|i: int| 0 <= i < ws.len() implies #[trigger] words_le(ws).subrange(
            8 * i,
            8 * i + 8,
        ) == le_bytes(ws[i] as nat, 8) by {
            if i < ws.len() - 1 {
                assert(words_le(ws).subrange(8 * i, 8 * i + 8) =~= words_le(pre).subrange(
                    8 * i,
                    8 * i + 8,
                ));
            } else {
                assert(words_le(ws).subrange(8 * i, 8 * i + 8) =~= le_bytes(ws[i] as nat, 8));
            }
        }
    }
}

/// A 16-bit field written with `le_bytes` reads back.
proof fn lemma_u16_field(data: Seq<u8>, o: int, x: nat)
    requires
        0 <= o,
        o + 2 <= data.len(),
        data.subrange(o, o + 2) == le_bytes(x, 2),
        x < 65536,
    ensures
        u16_at(data, o) == x,
{
    lemma_pow256_values();
    lemma_le_bytes_roundtrip(x, 2);
}

/// A 64-bit field written with `le_bytes` reads back.
proof fn lemma_u64_field(data: Seq<u8>, o: int, x: u64)
    requires
        0 <= o,
        o + 8 <= data.len(),
        data.subrange(o, o + 8) == le_bytes(x as nat, 8),
    ensures
        u64_at(data, o) == x,
        i64_at(data, o) == x as i64,
{
    lemma_pow256_values();
    lemma_le_bytes_roundtrip(x as nat, 8);
}

/// The signed samples round-trip through their words.
proof fn lemma_i64_bits(x: i64)
    ensures
        (x as u64) as i64 == x,
{
    assert((x as u64) as i64 == x) by (bit_vector);
}

/// The extra bits of a coded block decode to its residuals.
proof fn lemma_extra_roundtrip(rs: Seq<u64>)
    ensures
        decode_residuals(expand_runs(pack_runs(symbols_of(rs))), extra_bytes_of(extras_of(rs)), 0).0
            == rs,
        expand_runs(pack_runs(symbols_of(rs))) == symbols_of(rs),
        pack_runs(symbols_of(rs)).len() <= rs.len(),
{
    lemma_symbols_not_runs(rs);
    lemma_pack_expand(symbols_of(rs));
    let xs = extras_of(rs);
    let m = (total_bits(xs) + 7) / 8;
    lemma_packed_bound(xs);
    lemma_pow256_is_pow2(m);
    if total_bits(xs) < 8 * m {
        vstd::arithmetic::power2::lemma_pow2_strictly_increases(total_bits(xs), 8 * m);
    }
    lemma_le_bytes_roundtrip(packed(xs), m);
    lemma_residuals_roundtrip(rs, extra_bytes_of(xs), rs.len() as int);
    assert(symbols_of(rs).take(rs.len() as int) =~= symbols_of(rs));
    assert(rs.take(rs.len() as int) =~= rs);
}

/// One residual, classified, with its extra bits written and flushed, is
/// rebuilt from its symbol and the bits read back; its symbol is no run
/// symbol and it has at most 63 extra bits.
pub proof fn lemma_residual_roundtrip(v: u64)
    ensures
        residual_value(
            classify(v).0,
            read_val(extra_bytes_of(extras_of(seq![v])), 0, extra_count(classify(v).0)),
        ) == v,
        classify(v).0 <= 192,
        classify(v).1 <= 63,
{
    let xs = extras_of(seq![v]);
    let data = extra_bytes_of(xs);
    let m = (total_bits(xs) + 7) / 8;
    lemma_classify_roundtrip(v);
    lemma_packed_bound(xs);
    lemma_pow256_is_pow2(m);
    if total_bits(xs) < 8 * m {
        vstd::arithmetic::power2::lemma_pow2_strictly_increases(total_bits(xs), 8 * m);
    }
    lemma_le_bytes_roundtrip(packed(xs), m);
    lemma_le_bytes_len(packed(xs), m);
    lemma_bits_roundtrip(xs, data, 0, 0);
    assert(xs.take(0) =~= Seq::<(u64, u8)>::empty());
    assert(xs[0] == (classify(v).2, classify(v).1));
    vstd::arithmetic::div_mod::lemma_small_mod(
        classify(v).2 as nat,
        vstd::arithmetic::power2::pow2(classify(v).1 as nat),
    );
}

/// The common part of a coded block reads back.
proof fn lemma_read_coded(
    data: Seq<u8>,
    off: int,
    mode: u8,
    n: nat,
    fixed: Seq<u8>,
    rs: Seq<u64>,
    t: TableView,
    hm: &'static str,
    pm: &'static str,
)
    requires
        t.coding_ok(),
        0 <= off,
        rs.len() == n,
        1 <= n <= 65535,
        fixed.len() == 8 || fixed.len() == 16 || fixed.len() == 24,
        coded_is_smaller(n, fixed, extra_bytes_of(extras_of(rs)), rans_payload(pack_runs(symbols_of(rs)), t)),
        off + coded_block(
            mode,
            n,
            fixed,
            pack_runs(symbols_of(rs)),
            extra_bytes_of(extras_of(rs)),
            rans_payload(pack_runs(symbols_of(rs)), t),
        ).len() <= data.len(),
        data.subrange(
            off,
            off + coded_block(
                mode,
                n,
                fixed,
                pack_runs(symbols_of(rs)),
                extra_bytes_of(extras_of(rs)),
                rans_payload(pack_runs(symbols_of(rs)), t),
            ).len(),
        ) == coded_block(
            mode,
            n,
            fixed,
            pack_runs(symbols_of(rs)),
            extra_bytes_of(extras_of(rs)),
            rans_payload(pack_runs(symbols_of(rs)), t),
        ),
    ensures
        data[off] == mode,
        data.subrange(off + 9, off + 9 + fixed.len()) == fixed,
        coded_read(data, off + 1, fixed.len() as int, t, hm, pm) == (CodedRead::Good {
            count: n,
            seed: off + 9,
            symbols: pack_runs(symbols_of(rs)),
            extra: extra_bytes_of(extras_of(rs)),
            next: off + coded_block(
                mode,
                n,
                fixed,
                pack_runs(symbols_of(rs)),
                extra_bytes_of(extras_of(rs)),
                rans_payload(pack_runs(symbols_of(rs)), t),
            ).len(),
        }),
{
    let syms = pack_runs(symbols_of(rs));
    let extra = extra_bytes_of(extras_of(rs));
    let payload = rans_payload(syms, t);
    let blk = coded_block(mode, n, fixed, syms, extra, payload);
    lemma_extra_roundtrip(rs);
    let f = fixed.len() as int;
    let el = extra.len() as int;
    let rl = payload.len() as int;
    lemma_le_bytes_len(n, 2);
    lemma_le_bytes_len(syms.len(), 2);
    lemma_le_bytes_len(el as nat, 2);
    lemma_le_bytes_len(rl as nat, 2);
    assert(blk.len() == 9 + f + el + rl);
    lemma_rans_roundtrip(syms, t);
    assert(blk[0] == mode);
    assert(data[off] == blk[0]);
    assert(data.subrange(off + 1, off + 3) =~= blk.subrange(1, 3));
    assert(blk.subrange(1, 3) =~= le_bytes(n, 2));
    assert(data.subrange(off + 3, off + 5) =~= blk.subrange(3, 5));
    assert(blk.subrange(3, 5) =~= le_bytes(syms.len(), 2));
    assert(data.subrange(off + 5, off + 7) =~= blk.subrange(5, 7));
    assert(blk.subrange(5, 7) =~= le_bytes(el as nat, 2));
    assert(data.subrange(off + 7, off + 9) =~= blk.subrange(7, 9));
    assert(blk.subrange(7, 9) =~= le_bytes(rl as nat, 2));
    lemma_u16_field(data, off + 1, n);
    lemma_u16_field(data, off + 3, syms.len());
    lemma_u16_field(data, off + 5, el as nat);
    lemma_u16_field(data, off + 7, rl as nat);
    assert(data.subrange(off + 9, off + 9 + f) =~= blk.subrange(9, 9 + f));
    assert(blk.subrange(9, 9 + f) =~= fixed);
    let q = off + 9 + f;
    assert(data.subrange(q, q + el) =~= blk.subrange(9 + f, 9 + f + el));
    assert(blk.subrange(9 + f, 9 + f + el) =~= extra);
    assert(data.subrange(q + el, q + el + rl) =~= blk.subrange(9 + f + el, 9 + f + el + rl));
    assert(blk.subrange(9 + f + el, 9 + f + el + rl) =~= payload);
}

/// A raw block reads back as its words.
pub proof fn lemma_read_raw(data: Seq<u8>, off: int, ws: Seq<u64>, t: TableView, out: Seq<u64>)
    requires
        0 <= off,
        1 <= ws.len() < 65536,
        off + raw_block(ws).len() <= data.len(),
        data.subrange(off, off + raw_block(ws).len()) == raw_block(ws),
    ensures
        read_block(data, off, t, out) == (BlockRead::Decoded {
            next: off + raw_block(ws).len(),
            values: ws,
            table: t,
        }),
{
    reveal(read_block);
    let blk = raw_block(ws);
    lemma_le_bytes_len(ws.len(), 2);
    lemma_words_le(ws);
    assert(blk.len() == 3 + 8 * ws.len());
    assert(data[off] == blk[0]);
    assert(data.subrange(off + 1, off + 3) =~= blk.subrange(1, 3));
    assert(blk.subrange(1, 3) =~= le_bytes(ws.len(), 2));
    lemma_u16_field(data, off + 1, ws.len());
    let o = off + 1;
    let vals = Seq::new(ws.len(), |i: int| u64_at(data, o + 2 + 8 * i));
    assert forall|i: int| 0 <= i < ws.len() implies vals[i] == ws[i] by {
        assert(data.subrange(o + 2 + 8 * i, o + 2 + 8 * i + 8) =~= blk.subrange(
            3 + 8 * i,
            11 + 8 * i,
        ));
        assert(blk.subrange(3 + 8 * i, 11 + 8 * i) =~= words_le(ws).subrange(8 * i, 8 * i + 8));
        lemma_u64_field(data, o + 2 + 8 * i, ws[i]);
    }
    assert(vals =~= ws);
}

/// Reading a delta block back gives its samples and the writer's table.
pub proof fn lemma_delta_block_roundtrip(
    samples: Seq<i64>,
    init: i64,
    t: TableView,
    data: Seq<u8>,
    off: int,
    out: Seq<u64>,
)
    requires
        t.wf(),
        1 <= samples.len() <= 65535,
        0 <= off,
        off + delta_block(samples, init, t).0.len() <= data.len(),
        data.subrange(off, off + delta_block(samples, init, t).0.len()) == delta_block(
            samples,
            init,
            t,
        ).0,
    ensures
        read_block(data, off, t, out) == (BlockRead::Decoded {
            next: off + delta_block(samples, init, t).0.len(),
            values: as_words(samples),
            table: delta_block(samples, init, t).1,
        }),
{
    reveal(read_block);
    let rs = delta_residuals(samples, init);
    let fixed = le_bytes((init as u64) as nat, 8);
    lemma_le_bytes_len((init as u64) as nat, 8);
    let syms = pack_runs(symbols_of(rs));
    let extra = extra_bytes_of(extras_of(rs));
    let payload = rans_payload(syms, t);
    if coded_is_smaller(samples.len(), fixed, extra, payload) {
        lemma_read_coded(
            data,
            off,
            1,
            samples.len(),
            fixed,
            rs,
            t,
            "Truncated delta block header",
            "Truncated delta block payloads",
        );
        lemma_u64_field(data, off + 9, init as u64);
        lemma_i64_bits(init);
        lemma_extra_roundtrip(rs);
        lemma_delta_roundtrip(samples, init);
        assert(words_of(samples) =~= as_words(samples));
    } else {
        lemma_read_raw(data, off, as_words(samples), t, out);
    }
}

/// Reading an adaptive FIR block back gives its samples and the writer's table.
pub proof fn lemma_fir_block_roundtrip(
    samples: Seq<i64>,
    history: Seq<i64>,
    t: TableView,
    data: Seq<u8>,
    off: int,
    out: Seq<u64>,
)
    requires
        t.wf(),
        1 <= samples.len() <= 65535,
        history.len() == 3,
        0 <= off,
        off + fir_block(samples, history, t).0.len() <= data.len(),
        data.subrange(off, off + fir_block(samples, history, t).0.len()) == fir_block(
            samples,
            history,
            t,
        ).0,
    ensures
        read_block(data, off, t, out) == (BlockRead::Decoded {
            next: off + fir_block(samples, history, t).0.len(),
            values: as_words(samples),
            table: fir_block(samples, history, t).1,
        }),
{
    reveal(read_block);
    let rs = fir_run(samples, fir_initial(history)).0;
    lemma_fir_roundtrip(samples, fir_initial(history));
    let fixed = history_bytes(history);
    lemma_le_bytes_len((history[0] as u64) as nat, 8);
    lemma_le_bytes_len((history[1] as u64) as nat, 8);
    lemma_le_bytes_len((history[2] as u64) as nat, 8);
    let syms = pack_runs(symbols_of(rs));
    let extra = extra_bytes_of(extras_of(rs));
    let payload = rans_payload(syms, t);
    if coded_is_smaller(samples.len(), fixed, extra, payload) {
        lemma_read_coded(
            data,
            off,
            3,
            samples.len(),
            fixed,
            rs,
            t,
            "Truncated adaptive FIR block header",
            "Truncated adaptive FIR block payloads",
        );
        let s = off + 9;
        assert(data.subrange(s, s + 8) =~= fixed.subrange(0, 8));
        assert(data.subrange(s + 8, s + 16) =~= fixed.subrange(8, 16));
        assert(data.subrange(s + 16, s + 24) =~= fixed.subrange(16, 24));
        assert(fixed.subrange(0, 8) =~= le_bytes((history[0] as u64) as nat, 8));
        assert(fixed.subrange(8, 16) =~= le_bytes((history[1] as u64) as nat, 8));
        assert(fixed.subrange(16, 24) =~= le_bytes((history[2] as u64) as nat, 8));
        lemma_u64_field(data, s, history[0] as u64);
        lemma_u64_field(data, s + 8, history[1] as u64);
        lemma_u64_field(data, s + 16, history[2] as u64);
        lemma_i64_bits(history[0]);
        lemma_i64_bits(history[1]);
        lemma_i64_bits(history[2]);
        assert(seq![i64_at(data, s), i64_at(data, s + 8), i64_at(data, s + 16)] =~= history);
        lemma_extra_roundtrip(rs);
        assert(words_of(samples) =~= as_words(samples));
    } else {
        lemma_read_raw(data, off, as_words(samples), t, out);
    }
}

/// Reading a Gorilla XOR block back gives its words and the writer's table.
pub proof fn lemma_xor_block_roundtrip(
    samples: Seq<u64>,
    init: u64,
    t: TableView,
    data: Seq<u8>,
    off: int,
    out: Seq<u64>,
)
    requires
        t.wf(),
        1 <= samples.len() <= 65535,
        0 <= off,
        off + xor_block(samples, init, t).0.len() <= data.len(),
        data.subrange(off, off + xor_block(samples, init, t).0.len()) == xor_block(
            samples,
            init,
            t,
        ).0,
    ensures
        read_block(data, off, t, out) == (BlockRead::Decoded {
            next: off + xor_block(samples, init, t).0.len(),
            values: samples,
            table: xor_block(samples, init, t).1,
        }),
{
    reveal(read_block);
    let rs = xor_residuals(samples, init);
    let fixed = le_bytes(init as nat, 8);
    lemma_le_bytes_len(init as nat, 8);
    let syms = pack_runs(symbols_of(rs));
    let extra = extra_bytes_of(extras_of(rs));
    let payload = rans_payload(syms, t);
    if coded_is_smaller(samples.len(), fixed, extra, payload) {
        lemma_read_coded(
            data,
            off,
            2,
            samples.len(),
            fixed,
            rs,
            t,
            "Truncated XOR block header",
            "Truncated XOR block payloads",
        );
        lemma_u64_field(data, off + 9, init);
        lemma_extra_roundtrip(rs);
        lemma_xor_roundtrip(samples, init);
    } else {
        lemma_read_raw(data, off, samples, t, out);
    }
}

/// Reading a delta-of-delta block back gives its samples and the writer's
/// table.
pub proof fn lemma_delta2_block_roundtrip(
    samples: Seq<i64>,
    p1: i64,
    p2: i64,
    t: TableView,
    data: Seq<u8>,
    off: int,
    out: Seq<u64>,
)
    requires
        t.wf(),
        1 <= samples.len() <= 65535,
        0 <= off,
        off + delta2_block(samples, p1, p2, t).0.len() <= data.len(),
        data.subrange(off, off + delta2_block(samples, p1, p2, t).0.len()) == delta2_block(
            samples,
            p1,
            p2,
            t,
        ).0,
    ensures
        read_block(data, off, t, out) == (BlockRead::Decoded {
            next: off + delta2_block(samples, p1, p2, t).0.len(),
            values: as_words(samples),
            table: delta2_block(samples, p1, p2, t).1,
        }),
{
    reveal(read_block);
    let rs = delta2_residuals(samples, p1, p2);
    let fixed = delta2_seed(p1, p2);
    lemma_le_bytes_len((p1 as u64) as nat, 8);
    lemma_le_bytes_len((p2 as u64) as nat, 8);
    let syms = pack_runs(symbols_of(rs));
    let extra = extra_bytes_of(extras_of(rs));
    let payload = rans_payload(syms, t);
    if coded_is_smaller(samples.len(), fixed, extra, payload) {
        lemma_read_coded(
            data,
            off,
            5,
            samples.len(),
            fixed,
            rs,
            t,
            "Truncated delta-of-delta block header",
            "Truncated delta-of-delta block payloads",
        );
        assert(data.subrange(off + 9, off + 17) =~= fixed.subrange(0, 8));
        assert(fixed.subrange(0, 8) =~= le_bytes((p1 as u64) as nat, 8));
        assert(data.subrange(off + 17, off + 25) =~= fixed.subrange(8, 16));
        assert(fixed.subrange(8, 16) =~= le_bytes((p2 as u64) as nat, 8));
        lemma_u64_field(data, off + 9, p1 as u64);
        lemma_u64_field(data, off + 17, p2 as u64);
        lemma_i64_bits(p1);
        lemma_i64_bits(p2);
        lemma_extra_roundtrip(rs);
        lemma_delta2_roundtrip(samples, p1, p2);
        assert(words_of(samples) =~= as_words(samples));
    } else {
        lemma_read_raw(data, off, as_words(samples), t, out);
    }
}

/// Reading a constant block gives its samples.
proof fn lemma_constant_block_roundtrip(samples: Seq<i64>, t: TableView, data: Seq<u8>, off: int, out: Seq<u64>)
    requires
        1 <= samples.len() <= 65535,
        all_equal(samples),
        0 <= off,
        off + constant_block(samples).len() <= data.len(),
        data.subrange(off, off + constant_block(samples).len()) == constant_block(samples),
    ensures
        read_block(data, off, t, out) == (BlockRead::Decoded {
            next: off + constant_block(samples).len(),
            values: as_words(samples),
            table: t,
        }),
{
    reveal(read_block);
    let blk = constant_block(samples);
    let v = samples[0] as u64;
    lemma_le_bytes_len(samples.len(), 2);
    lemma_le_bytes_len(v as nat, 8);
    assert(blk.len() == 11);
    assert(data[off] == blk[0]);
    assert(data.subrange(off + 1, off + 3) =~= blk.subrange(1, 3));
    assert(blk.subrange(1, 3) =~= le_bytes(samples.len(), 2));
    lemma_u16_field(data, off + 1, samples.len());
    assert(data.subrange(off + 3, off + 11) =~= blk.subrange(3, 11));
    assert(blk.subrange(3, 11) =~= le_bytes(v as nat, 8));
    lemma_u64_field(data, off + 3, v);
    assert forall|i: int| 0 <= i < samples.len() implies #[trigger] as_words(samples)[i] == v by {
        assert(samples[i] == samples[0]);
    }
    assert(Seq::new(samples.len(), |i: int| v) =~= as_words(samples));
}

/// Reading a linear ramp block gives its samples.
proof fn lemma_ramp_block_roundtrip(samples: Seq<i64>, t: TableView, data: Seq<u8>, off: int, out: Seq<u64>)
    requires
        2 <= samples.len() <= 65535,
        is_ramp(samples),
        0 <= off,
        off + ramp_block(samples).len() <= data.len(),
        data.subrange(off, off + ramp_block(samples).len()) == ramp_block(samples),
    ensures
        read_block(data, off, t, out) == (BlockRead::Decoded {
            next: off + ramp_block(samples).len(),
            values: as_words(samples),
            table: t,
        }),
{
    reveal(read_block);
    let blk = ramp_block(samples);
    let s0 = samples[0];
    let d = ramp_step(samples);
    lemma_le_bytes_len(samples.len(), 2);
    lemma_le_bytes_len((s0 as u64) as nat, 8);
    lemma_le_bytes_len((d as u64) as nat, 8);
    assert(blk.len() == 19);
    assert(data[off] == blk[0]);
    assert(data.subrange(off + 1, off + 3) =~= blk.subrange(1, 3));
    assert(blk.subrange(1, 3) =~= le_bytes(samples.len(), 2));
    lemma_u16_field(data, off + 1, samples.len());
    assert(data.subrange(off + 3, off + 11) =~= blk.subrange(3, 11));
    assert(blk.subrange(3, 11) =~= le_bytes((s0 as u64) as nat, 8));
    lemma_u64_field(data, off + 3, s0 as u64);
    assert(data.subrange(off + 11, off + 19) =~= blk.subrange(11, 19));
    assert(blk.subrange(11, 19) =~= le_bytes((d as u64) as nat, 8));
    lemma_u64_field(data, off + 11, d as u64);
    lemma_i64_bits(s0);
    lemma_i64_bits(d);
    let vals = Seq::new(
        samples.len(),
        |i: int| s0.wrapping_add((i as i64).wrapping_mul(d)) as u64,
    );
    assert forall|i: int| 0 <= i < samples.len() implies vals[i] == as_words(samples)[i] by {
        assert(samples[i] == s0.wrapping_add((i as i64).wrapping_mul(d)));
    }
    assert(vals =~= as_words(samples));
}

/// Reading the block that the automatic writer emits gives its samples and
/// the writer's table.
pub proof fn lemma_auto_block_roundtrip(
    samples: Seq<i64>,
    init: i64,
    history: Seq<i64>,
    t: TableView,
    data: Seq<u8>,
    off: int,
    out: Seq<u64>,
)
    requires
        t.wf(),
        1 <= samples.len() <= 65535,
        history.len() == 3,
        0 <= off,
        off + auto_block(samples, init, history, t).0.len() <= data.len(),
        data.subrange(off, off + auto_block(samples, init, history, t).0.len()) == auto_block(
            samples,
            init,
            history,
            t,
        ).0,
    ensures
        read_block(data, off, t, out) == (BlockRead::Decoded {
            next: off + auto_block(samples, init, history, t).0.len(),
            values: as_words(samples),
            table: auto_block(samples, init, history, t).1,
        }),
{
    reveal(auto_block);
    reveal(block_mode);
    match block_mode(samples, init, history) {
        PredictorMode::Constant => {
            lemma_constant_block_roundtrip(samples, t, data, off, out);
        },
        PredictorMode::LinearRamp => {
            lemma_ramp_block_roundtrip(samples, t, data, off, out);
        },
        PredictorMode::DeltaOfDelta => {
            lemma_delta2_block_roundtrip(samples, init, history[1], t, data, off, out);
        },
        PredictorMode::AdaptiveLinear => {
            lemma_fir_block_roundtrip(samples, history, t, data, off, out);
        },
        _ => {
            lemma_delta_block_roundtrip(samples, init, t, data, off, out);
        },
    }
}

} // verus!
