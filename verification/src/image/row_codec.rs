//! Coding of one 8-bit image channel row.
//!
//! A row is `[filter][payload length: u32]` and then: nothing for a repeat
//! of the row above (the length counts the repeated rows in a grayscale
//! stream), the value for a constant row, the pixels for a raw row, or
//! `[symbol count: u16][extra-bits length: u16][extra bits][rANS payload]`
//! for a predicted row, all little endian.

use vstd::prelude::*;
use crate::entropy::adaptive_table::{AdaptiveTable, TableView, observed_all};
use crate::entropy::rans_decoder::{RansDecoder, rans_decoded};
use crate::entropy::rans_encoder::{RansEncoder, rans_payload};
use crate::image::spatial_predictor::{FilterType, filter_code, best_filter, filtered,
    unfiltered, pack_symbols, pack_fields, unpack_state, unpack_outcome, select_best_filter,
    filter_row, unfilter_row, pack_8bit_residuals, unpack_8bit_residuals, lemma_unfiltered_len};
use crate::le_bytes::{bytes_value, le_bytes, push_le, push_slice, read_le, lemma_bytes_value_bound,
    lemma_pow256_values};
use crate::stream::bitstream::{BitReader, BitWriter};
use crate::stream::block_reader::u16_at;
use crate::stream::block_writer::{extra_bytes_of, finish_extra};

verus! {

/// The 32-bit little-endian field at `o`.
pub open spec fn u32_at(data: Seq<u8>, o: int) -> nat {
    bytes_value(data.subrange(o, o + 4))
}

/// Whether every pixel of the row equals the first.
pub open spec fn all_same(row: Seq<u8>) -> bool {
    forall|i: int| 0 <= i < row.len() ==> #[trigger] row[i] == row[0]
}

/// The filter whose header byte is `b`.
pub open spec fn filter_of(b: u8) -> FilterType {
    if b == 0 {
        FilterType::NoFilter
    } else if b == 1 {
        FilterType::Sub
    } else if b == 2 {
        FilterType::Up
    } else if b == 3 {
        FilterType::Average
    } else if b == 4 {
        FilterType::Paeth
    } else if b == 5 {
        FilterType::Plane
    } else if b == 6 {
        FilterType::Med
    } else if b == 7 {
        FilterType::RepeatPrev
    } else if b == 8 {
        FilterType::Constant
    } else {
        FilterType::Raw
    }
}

/// A predicted row: filter, payload length, symbol count, extra-bits
/// length, extra bits, rANS payload.
pub open spec fn coded_row(f: FilterType, syms: Seq<u8>, extra: Seq<u8>, payload: Seq<u8>) -> Seq<u8> {
    seq![filter_code(f)] + le_bytes(4 + extra.len() + payload.len(), 4) + le_bytes(syms.len(), 2)
        + le_bytes(extra.len(), 2) + extra + payload
}

/// A row that repeats the row above.
pub open spec fn repeat_row(count: nat) -> Seq<u8> {
    seq![7u8] + le_bytes(count, 4)
}

/// Coding the row `curr` under `prev` with table `t`: the bytes, the row
/// that becomes the one above, and the table after.
pub open spec fn encode_row(curr: Seq<u8>, prev: Seq<u8>, t: TableView) -> (
    Seq<u8>,
    Seq<u8>,
    TableView,
) {
    if prev.len() > 0 && curr == prev {
        (repeat_row(0), prev, t)
    } else if all_same(curr) {
        (seq![8u8] + le_bytes(1, 4) + seq![curr[0]], curr, t)
    } else {
        let f = best_filter(curr, prev);
        let res = filtered(curr, prev, f);
        let syms = pack_symbols(res);
        let extra = extra_bytes_of(pack_fields(res));
        let payload = rans_payload(syms, t);
        if 4 + extra.len() + payload.len() >= curr.len() {
            (seq![9u8] + le_bytes(curr.len(), 4) + curr, curr, t)
        } else {
            (coded_row(f, syms, extra, payload), curr, observed_all(t, syms))
        }
    }
}

/// What reading one row gives.
pub ghost enum RowRead {
    Failed { msg: &'static str },
    /// The offset after the row, the row, the row that becomes the one
    /// above, the table after, and how many more rows repeat it.
    Row { next: int, row: Seq<u8>, prev: Seq<u8>, table: TableView, repeats: nat },
}

/// Reading the row of width `w` at `off` under `prev` with table `t`. An
/// offset that a constant row's length moves past the data stops at its end,
/// where every further read fails alike.
#[verifier::opaque]
pub open spec fn decode_row(c: Seq<u8>, off: int, w: nat, prev: Seq<u8>, t: TableView) -> RowRead {
    if off + 5 > c.len() {
        RowRead::Failed { msg: "Truncated image row header" }
    } else {
        let fb = c[off];
        let pl = u32_at(c, off + 1);
        let o = off + 5;
        if fb > 9 {
            RowRead::Failed { msg: "Invalid filter type" }
        } else if fb == 7 {
            if prev.len() != w {
                RowRead::Failed { msg: "RepeatPrev on first row or mismatched width" }
            } else {
                RowRead::Row {
                    next: o,
                    row: prev,
                    prev,
                    table: t,
                    repeats: if pl > 1 {
                        (pl - 1) as nat
                    } else {
                        0
                    },
                }
            }
        } else if fb == 8 {
            if o >= c.len() {
                RowRead::Failed { msg: "Truncated constant row payload" }
            } else {
                let row = Seq::new(w, |i: int| c[o]);
                RowRead::Row {
                    next: if o + pl <= c.len() {
                        o + pl
                    } else {
                        c.len() as int
                    },
                    row,
                    prev: row,
                    table: t,
                    repeats: 0,
                }
            }
        } else if fb == 9 {
            if o + pl > c.len() || pl != w {
                RowRead::Failed { msg: "Truncated or invalid raw row payload" }
            } else {
                let row = c.subrange(o, o + pl);
                RowRead::Row { next: o + pl, row, prev: row, table: t, repeats: 0 }
            }
        } else if o + pl > c.len() {
            RowRead::Failed { msg: "Truncated image row payload" }
        } else if pl < 4 {
            RowRead::Failed { msg: "Invalid row payload length" }
        } else {
            let sc = u16_at(c, o);
            let el = u16_at(c, o + 2);
            let o2 = o + 4;
            if 4 + el > pl {
                RowRead::Failed { msg: "Corrupted extra bits length in row payload" }
            } else {
                let rl = pl - 4 - el;
                let payload = c.subrange(o2 + el, o2 + el + rl);
                if rl < 4 {
                    RowRead::Failed { msg: "Payload too short for rANS state" }
                } else {
                    let syms = rans_decoded(payload, sc, t);
                    let extra = c.subrange(o2, o2 + el);
                    match unpack_outcome(syms, extra, 0, w, Seq::empty()) {
                        Err(e) => RowRead::Failed { msg: e },
                        Ok(_) => {
                            let res = unpack_state(syms, extra, 0, w, Seq::empty()).out;
                            let row = unfiltered(res, prev, filter_of(fb));
                            RowRead::Row {
                                next: o + pl,
                                row,
                                prev: row,
                                table: observed_all(t, syms),
                                repeats: 0,
                            }
                        },
                    }
                }
            }
        }
    }
}

/// Whether two rows are equal.
pub(crate) fn rows_equal(a: &[u8], b: &[u8]) -> (r: bool)
    ensures
        r == (a@ == b@),
{
    if a.len() != b.len() {
        return false;
    }
    let mut i: usize = 0;
    while i < a.len()
        invariant
            i <= a@.len() == b@.len(),
            forall|j: int| 0 <= j < i ==> a@[j] == b@[j],
        decreases a@.len() - i,
    {
        if a[i] != b[i] {
            return false;
        }
        i = i + 1;
    }
    proof {
        assert(a@ =~= b@);
    }
    true
}

/// Whether every pixel of a non-empty row equals the first.
fn row_all_same(row: &[u8]) -> (r: bool)
    requires
        row@.len() >= 1,
    ensures
        r == all_same(row@),
{
    let first = row[0];
    let mut i: usize = 0;
    while i < row.len()
        invariant
            i <= row@.len(),
            first == row@[0],
            forall|j: int| 0 <= j < i ==> row@[j] == first,
        decreases row@.len() - i,
    {
        if row[i] != first {
            return false;
        }
        i = i + 1;
    }
    true
}

/// Replaces the contents of `dst` by `src`.
pub(crate) fn copy_row(dst: &mut Vec<u8>, src: &[u8])
    ensures
        final(dst)@ == src@,
{
    dst.clear();
    push_slice(dst, src);
    proof {
        assert(Seq::<u8>::empty() + src@ =~= src@);
    }
}

/// Encode a single 8-bit image channel row with RepeatPrev, Constant, and Zero-Run fast paths.
pub(crate) fn encode_channel_row(
    curr_row: &[u8],
    prev_row: &mut Vec<u8>,
    table: &mut AdaptiveTable,
    out: &mut Vec<u8>,
)
    requires
        curr_row@.len() >= 1,
        old(prev_row)@.len() == 0 || old(prev_row)@.len() == curr_row@.len(),
        old(table)@.wf(),
    ensures
        final(table)@.wf(),
        final(out)@ == old(out)@ + encode_row(curr_row@, old(prev_row)@, old(table)@).0,
        final(prev_row)@ == encode_row(curr_row@, old(prev_row)@, old(table)@).1,
        final(prev_row)@ == curr_row@,
        final(table)@ == encode_row(curr_row@, old(prev_row)@, old(table)@).2,
{
    proof {
        reveal(encode_row);
    }
    if prev_row.len() > 0 && rows_equal(curr_row, prev_row.as_slice()) {
        out.push(7);
        push_le(out, 0, 4);
        proof {
            assert(out@ =~= old(out)@ + repeat_row(0));
        }
        return;
    }
    if row_all_same(curr_row) {
        out.push(8);
        push_le(out, 1, 4);
        out.push(curr_row[0]);
        copy_row(prev_row, curr_row);
        proof {
            assert(out@ =~= old(out)@ + (seq![8u8] + le_bytes(1, 4) + seq![curr_row@[0]]));
        }
        return;
    }
    let filter = select_best_filter(curr_row, prev_row.as_slice());
    let mut residuals: Vec<u8> = Vec::new();
    filter_row(curr_row, prev_row.as_slice(), filter, &mut residuals);
    let ghost res = filtered(curr_row@, old(prev_row)@, filter);
    proof {
        assert(residuals@ =~= res);
    }
    let mut symbols: Vec<u8> = Vec::new();
    let mut bit_writer = BitWriter::with_capacity(curr_row.len() / 4 + 8);
    pack_8bit_residuals(residuals.as_slice(), &mut symbols, &mut bit_writer);
    proof {
        vstd::arithmetic::power2::lemma2_to64();
        assert(symbols@ =~= pack_symbols(res));
        let p = crate::stream::bitstream::packed(pack_fields(res));
        assert(vstd::arithmetic::power2::pow2(0) * p == p);
    }
    let extra = finish_extra(bit_writer, Ghost(pack_fields(res)));
    let mut rans = RansEncoder::new();
    rans.encode_block(symbols.as_slice(), table);
    let payload = rans.finish();
    let compressed_len: u128 = 4 + extra.len() as u128 + payload.len() as u128;
    if compressed_len >= curr_row.len() as u128 {
        out.push(9);
        push_le(out, curr_row.len() as u64, 4);
        push_slice(out, curr_row);
        proof {
            assert(out@ =~= old(out)@ + (seq![9u8] + le_bytes(curr_row@.len(), 4) + curr_row@));
        }
    } else {
        table.observe_all(symbols.as_slice());
        out.push(filter.code());
        push_le(out, compressed_len as u64, 4);
        push_le(out, symbols.len() as u64, 2);
        push_le(out, extra.len() as u64, 2);
        push_slice(out, extra.as_slice());
        push_slice(out, payload.as_slice());
        proof {
            assert(out@ =~= old(out)@ + coded_row(filter, symbols@, extra@, payload@));
        }
    }
    copy_row(prev_row, curr_row);
}

/// Reads the 32-bit little-endian field at `o`.
pub(crate) fn read_u32_at(data: &[u8], o: usize) -> (v: usize)
    requires
        o + 4 <= data@.len(),
    ensures
        v as nat == u32_at(data@, o as int),
        v <= u32::MAX,
{
    let v = read_le(data, o, 4);
    proof {
        lemma_bytes_value_bound(data@.subrange(o as int, o + 4));
        lemma_pow256_values();
    }
    v as usize
}

/// Whether the row at `off` is a filtered row that decodes up to the point
/// where its residuals are unfiltered against the row above.
pub open spec fn row_reaches_unfilter(c: Seq<u8>, off: int, w: nat, t: TableView) -> bool {
    &&& off + 5 <= c.len()
    &&& c[off] <= 6
    &&& decode_row(c, off, w, Seq::empty(), t) is Row
}

/// Decode a single 8-bit image channel row with run repeat support.
pub(crate) fn decode_channel_row_repeat(
    w: usize,
    compressed: &[u8],
    offset: &mut usize,
    prev_row: &mut Vec<u8>,
    table: &mut AdaptiveTable,
    curr_row: &mut Vec<u8>,
    remaining_repeats: &mut usize,
) -> (r: Result<(), &'static str>)
    requires
        old(table)@.wf(),
        *old(offset) <= compressed@.len(),
        old(prev_row)@.len() == 0 || old(prev_row)@.len() >= w || !row_reaches_unfilter(
            compressed@,
            *old(offset) as int,
            w as nat,
            old(table)@,
        ),
    ensures
        match decode_row(compressed@, *old(offset) as int, w as nat, old(prev_row)@, old(table)@) {
            RowRead::Failed { msg } => r == Err::<(), &'static str>(msg),
            RowRead::Row { next, row, prev, table: t2, repeats } => {
                &&& r == Ok::<(), &'static str>(())
                &&& *final(offset) == next
                &&& final(curr_row)@ == row
                &&& final(prev_row)@ == prev
                &&& final(table)@ == t2
                &&& final(table)@.wf()
                &&& *final(remaining_repeats) == if repeats > 0 {
                    repeats as int
                } else {
                    *old(remaining_repeats) as int
                }
            },
        },
{
    proof {
        reveal(decode_row);
    }
    let len = compressed.len();
    let off = *offset;
    if len < 5 || off > len - 5 {
        return Err("Truncated image row header");
    }
    let filter_byte = compressed[off];
    let payload_len = read_u32_at(compressed, off + 1);
    let o: usize = off + 5;
    *offset = o;
    let filter = match FilterType::from_u8(filter_byte) {
        Some(f) => f,
        None => {
            return Err("Invalid filter type");
        },
    };
    proof {
        assert(filter == filter_of(filter_byte));
    }
    match filter {
        FilterType::RepeatPrev => {
            if prev_row.len() != w {
                return Err("RepeatPrev on first row or mismatched width");
            }
            if payload_len > 1 {
                *remaining_repeats = payload_len - 1;
            }
            copy_row(curr_row, prev_row.as_slice());
        },
        FilterType::Constant => {
            if o >= len {
                return Err("Truncated constant row payload");
            }
            let val = compressed[o];
            *offset = if payload_len <= len - o {
                o + payload_len
            } else {
                len
            };
            curr_row.clear();
            let mut i: usize = 0;
            while i < w
                invariant
                    i <= w,
                    curr_row@ == Seq::new(i as nat, |k: int| val),
                decreases w - i,
            {
                curr_row.push(val);
                i = i + 1;
                proof {
                    assert(curr_row@ =~= Seq::new(i as nat, |k: int| val));
                }
            }
            copy_row(prev_row, curr_row.as_slice());
        },
        FilterType::Raw => {
            if payload_len > len - o || payload_len != w {
                return Err("Truncated or invalid raw row payload");
            }
            copy_row(curr_row, &compressed[o..o + payload_len]);
            *offset = o + payload_len;
            copy_row(prev_row, curr_row.as_slice());
        },
        _ => {
            if payload_len > len - o {
                return Err("Truncated image row payload");
            }
            if payload_len < 4 {
                return Err("Invalid row payload length");
            }
            let sym_count = crate::stream::block_reader::read_u16_at(compressed, o);
            let extra_len = crate::stream::block_reader::read_u16_at(compressed, o + 2);
            let o2: usize = o + 4;
            if extra_len > payload_len - 4 {
                return Err("Corrupted extra bits length in row payload");
            }
            let extra_bytes = &compressed[o2..o2 + extra_len];
            let rans_len: usize = payload_len - 4 - extra_len;
            let rans_bytes = &compressed[o2 + extra_len..o2 + extra_len + rans_len];
            *offset = o2 + extra_len + rans_len;
            let mut rans = match RansDecoder::new(rans_bytes) {
                Ok(d) => d,
                Err(e) => {
                    return Err(e);
                },
            };
            let symbols = rans.decode_block(sym_count, table);
            proof {
                assert(symbols@ == rans_decoded(rans_bytes@, sym_count as nat, old(table)@));
            }
            table.observe_all(symbols.as_slice());
            let mut bit_reader = BitReader::new(extra_bytes);
            let mut residuals: Vec<u8> = Vec::new();
            match unpack_8bit_residuals(symbols.as_slice(), &mut bit_reader, w, &mut residuals) {
                Ok(()) => {},
                Err(e) => {
                    return Err(e);
                },
            }
            proof {
                assert(decode_row(compressed@, off as int, w as nat, Seq::empty(), old(table)@) is Row);
            }
            curr_row.clear();
            unfilter_row(residuals.as_slice(), prev_row.as_slice(), filter, curr_row);
            proof {
                assert(curr_row@ =~= unfiltered(residuals@, old(prev_row)@, filter));
            }
            copy_row(prev_row, curr_row.as_slice());
        },
    }
    Ok(())
}

/// Decode a single 8-bit image channel row (calls repeat decoder with 0 remaining).
pub(crate) fn decode_channel_row(
    w: usize,
    compressed: &[u8],
    offset: &mut usize,
    prev_row: &mut Vec<u8>,
    table: &mut AdaptiveTable,
    curr_row: &mut Vec<u8>,
) -> (r: Result<(), &'static str>)
    requires
        old(table)@.wf(),
        *old(offset) <= compressed@.len(),
        old(prev_row)@.len() == 0 || old(prev_row)@.len() >= w || !row_reaches_unfilter(
            compressed@,
            *old(offset) as int,
            w as nat,
            old(table)@,
        ),
    ensures
        match decode_row(compressed@, *old(offset) as int, w as nat, old(prev_row)@, old(table)@) {
            RowRead::Failed { msg } => r == Err::<(), &'static str>(msg),
            RowRead::Row { next, row, prev, table: t2, repeats } => {
                &&& r == Ok::<(), &'static str>(())
                &&& *final(offset) == next
                &&& final(curr_row)@ == row
                &&& final(prev_row)@ == prev
                &&& final(table)@ == t2
                &&& final(table)@.wf()
            },
        },
{
    let mut dummy: usize = 0;
    decode_channel_row_repeat(w, compressed, offset, prev_row, table, curr_row, &mut dummy)
}

/// A row that reads is `w` pixels wide, becomes the row above, and ends
/// after its start and within the data; the table stays fit for coding.
pub proof fn lemma_decode_row_shape(c: Seq<u8>, off: int, w: nat, prev: Seq<u8>, t: TableView)
    requires
        0 <= off,
        prev.len() == 0 || prev.len() == w,
        t.wf(),
    ensures
        decode_row(c, off, w, prev, t) matches RowRead::Row { next, row, prev: p2, table, repeats } ==> {
            &&& off < next <= c.len()
            &&& row.len() == w
            &&& p2 == row
            &&& table.wf()
        },
{
    reveal(decode_row);
    if off + 5 <= c.len() {
        let fb = c[off];
        let o = off + 5;
        let pl = u32_at(c, off + 1);
        if fb <= 6 && o + pl <= c.len() && pl >= 4 {
            let sc = u16_at(c, o);
            let el = u16_at(c, o + 2);
            let o2 = o + 4;
            if 4 + el <= pl && pl - 4 - el >= 4 {
                let rl = pl - 4 - el;
                let payload = c.subrange(o2 + el, o2 + el + rl);
                let syms = rans_decoded(payload, sc, t);
                let extra = c.subrange(o2, o2 + el);
                crate::entropy::adaptive_table::lemma_observed_all_wf(t, syms);
                let res = unpack_state(syms, extra, 0, w, Seq::empty()).out;
                lemma_unfiltered_len(res, prev, filter_of(fb));
            }
        }
    }
}

} // verus!
