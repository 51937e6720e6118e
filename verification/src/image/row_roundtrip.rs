//! Reading a coded row back gives the row and the encoder's state.

use vstd::prelude::*;
use crate::entropy::adaptive_table::{TableView, lemma_observed_all_wf};
use crate::entropy::rans_decoder::lemma_rans_roundtrip;
use crate::entropy::rans_encoder::rans_payload;
use crate::image::row_codec::{encode_row, decode_row, RowRead, coded_row, all_same, filter_of,
    u32_at};
use crate::image::spatial_predictor::{filter_code, best_filter, best_upto, filtered, pack_tokens,
    pack_symbols, pack_fields, lemma_filter_roundtrip, lemma_pack_roundtrip};
use crate::le_bytes::{le_bytes, bytes_value, lemma_le_bytes_len, lemma_le_bytes_roundtrip,
    lemma_pow256_values};
use crate::stream::bitstream::{packed, total_bits, lemma_packed_bound, lemma_pow256_is_pow2};
use crate::stream::block_reader::u16_at;
use crate::stream::block_writer::extra_bytes_of;

verus! {

/// The extra bytes hold the packed fields.
pub proof fn lemma_extra_bytes(xs: Seq<(u64, u8)>)
    ensures
        bytes_value(extra_bytes_of(xs)) == packed(xs),
        8 * extra_bytes_of(xs).len() >= total_bits(xs),
        extra_bytes_of(xs).len() == (total_bits(xs) + 7) / 8,
{
    let m = (total_bits(xs) + 7) / 8;
    lemma_packed_bound(xs);
    lemma_pow256_is_pow2(m);
    if total_bits(xs) < 8 * m {
        vstd::arithmetic::power2::lemma_pow2_strictly_increases(total_bits(xs), 8 * m);
    }
    lemma_le_bytes_roundtrip(packed(xs), m);
}

/// The selector picks one of the predicting filters.
pub proof fn lemma_best_filter_code(curr: Seq<u8>, prev: Seq<u8>)
    ensures
        filter_code(best_filter(curr, prev)) <= 6,
        filter_of(filter_code(best_filter(curr, prev))) == best_filter(curr, prev),
{
    assert forall|k: nat| k <= 7 implies filter_code(#[trigger] best_upto(curr, prev, k).0) <= 6 by {
        lemma_best_upto_code(curr, prev, k);
    }
}

proof fn lemma_best_upto_code(curr: Seq<u8>, prev: Seq<u8>, k: nat)
    ensures
        filter_code(best_upto(curr, prev, k).0) <= 6,
    decreases k,
{
    if k > 0 {
        lemma_best_upto_code(curr, prev, (k - 1) as nat);
    }
}

/// Each symbol stands for at least one residual.
pub proof fn lemma_pack_symbols_len(res: Seq<u8>)
    ensures
        pack_symbols(res).len() <= res.len(),
    decreases res.len(),
{
    if res.len() > 0 {
        crate::image::spatial_predictor::lemma_leading_zeros(res, 65);
        let run: int = if res[0] == 0 {
            crate::image::spatial_predictor::zero_run(res) as int
        } else {
            1
        };
        lemma_pack_symbols_len(res.skip(run));
        assert(pack_tokens(res).len() == 1 + pack_tokens(res.skip(run)).len());
    }
}

/// Reading the row that `encode_row` wrote gives the row back, with the
/// encoder's row above and table.
pub proof fn lemma_row_roundtrip(curr: Seq<u8>, prev: Seq<u8>, t: TableView, c: Seq<u8>, off: int)
    requires
        t.wf(),
        1 <= curr.len() <= 65535,
        prev.len() == 0 || prev.len() == curr.len(),
        0 <= off,
        off + encode_row(curr, prev, t).0.len() <= c.len(),
        c.subrange(off, off + encode_row(curr, prev, t).0.len()) == encode_row(curr, prev, t).0,
    ensures
        decode_row(c, off, curr.len(), prev, t) == (RowRead::Row {
            next: off + encode_row(curr, prev, t).0.len(),
            row: curr,
            prev: encode_row(curr, prev, t).1,
            table: encode_row(curr, prev, t).2,
            repeats: 0,
        }),
        encode_row(curr, prev, t).1 == curr,
        encode_row(curr, prev, t).2.wf(),
{
    reveal(encode_row);
    reveal(decode_row);
    let enc = encode_row(curr, prev, t);
    let bytes = enc.0;
    let w = curr.len();
    lemma_pow256_values();
    assert(c[off] == bytes[0]);
    if prev.len() > 0 && curr == prev {
        lemma_le_bytes_len(0, 4);
        assert(c.subrange(off + 1, off + 5) =~= bytes.subrange(1, 5));
        assert(bytes.subrange(1, 5) =~= le_bytes(0, 4));
        lemma_le_bytes_roundtrip(0, 4);
        assert(u32_at(c, off + 1) == 0);
    } else if all_same(curr) {
        lemma_le_bytes_len(1, 4);
        assert(c.subrange(off + 1, off + 5) =~= bytes.subrange(1, 5));
        assert(bytes.subrange(1, 5) =~= le_bytes(1, 4));
        lemma_le_bytes_roundtrip(1, 4);
        assert(c[off + 5] == bytes[5]);
        assert(Seq::new(w, |i: int| c[off + 5]) =~= curr);
    } else {
        let f = best_filter(curr, prev);
        let res = filtered(curr, prev, f);
        let syms = pack_symbols(res);
        let xs = pack_fields(res);
        let extra = extra_bytes_of(xs);
        let payload = rans_payload(syms, t);
        lemma_rans_roundtrip(syms, t);
        lemma_observed_all_wf(t, syms);
        if 4 + extra.len() + payload.len() >= w {
            lemma_le_bytes_len(w, 4);
            assert(c.subrange(off + 1, off + 5) =~= bytes.subrange(1, 5));
            assert(bytes.subrange(1, 5) =~= le_bytes(w, 4));
            lemma_le_bytes_roundtrip(w, 4);
            assert(c.subrange(off + 5, off + 5 + w) =~= bytes.subrange(5, 5 + w as int));
            assert(bytes.subrange(5, 5 + w as int) =~= curr);
        } else {
            let pl = 4 + extra.len() + payload.len();
            lemma_pack_symbols_len(res);
            lemma_best_filter_code(curr, prev);
            lemma_le_bytes_len(pl, 4);
            lemma_le_bytes_len(syms.len(), 2);
            lemma_le_bytes_len(extra.len(), 2);
            assert(bytes == coded_row(f, syms, extra, payload));
            assert(c.subrange(off + 1, off + 5) =~= bytes.subrange(1, 5));
            assert(bytes.subrange(1, 5) =~= le_bytes(pl, 4));
            lemma_le_bytes_roundtrip(pl, 4);
            let o = off + 5;
            assert(c.subrange(o, o + 2) =~= bytes.subrange(5, 7));
            assert(bytes.subrange(5, 7) =~= le_bytes(syms.len(), 2));
            lemma_le_bytes_roundtrip(syms.len(), 2);
            assert(u16_at(c, o) == syms.len());
            assert(c.subrange(o + 2, o + 4) =~= bytes.subrange(7, 9));
            assert(bytes.subrange(7, 9) =~= le_bytes(extra.len(), 2));
            lemma_le_bytes_roundtrip(extra.len(), 2);
            assert(u16_at(c, o + 2) == extra.len());
            let o2 = o + 4;
            let el = extra.len() as int;
            let rl = payload.len() as int;
            assert(c.subrange(o2, o2 + el) =~= bytes.subrange(9, 9 + el));
            assert(bytes.subrange(9, 9 + el) =~= extra);
            assert(c.subrange(o2 + el, o2 + el + rl) =~= bytes.subrange(9 + el, 9 + el + rl));
            assert(bytes.subrange(9 + el, 9 + el + rl) =~= payload);
            lemma_extra_bytes(xs);
            lemma_pack_roundtrip(res, extra);
            lemma_filter_roundtrip(curr, prev, f);
        }
    }
}

} // verus!
