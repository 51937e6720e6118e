//! Whole-image compression, row by row: grayscale with run-length repeats
//! and an optional palette of up to 16 colors, and RGB with reversible
//! color decorrelation (G, R-G, B-G).
//!
//! A stream is `"TTHI"`, width and height as `u32` little endian, a channel
//! byte (1 grayscale, `0x81` grayscale with palette, 3 RGB), for a palette
//! its length and entries, and then the coded rows.

use vstd::prelude::*;
use crate::codec::start_table;
use crate::entropy::adaptive_table::{AdaptiveTable, TableView, skewed_raw};
use crate::image::row_codec::{encode_row, repeat_row, decode_row, RowRead, rows_equal,
    encode_channel_row, decode_channel_row_repeat, decode_channel_row, copy_row, read_u32_at,
    u32_at};
use crate::le_bytes::{le_bytes, push_le, push_slice};

verus! {

/// The magic bytes of an image stream: "TTHI".
pub const IMAGE_MAGIC: [u8; 4] = [84u8, 84u8, 72u8, 73u8];

/// Row `y` of an image `w` pixels wide.
pub open spec fn row_at(pixels: Seq<u8>, w: nat, y: int) -> Seq<u8> {
    pixels.subrange(y * w, y * w + w)
}

/// A row through the lookup table `lut` when `mapped`, else unchanged.
pub open spec fn map_seq(row: Seq<u8>, lut: Seq<u8>, mapped: bool) -> Seq<u8> {
    if mapped {
        Seq::new(row.len(), |i: int| lut[row[i] as int])
    } else {
        row
    }
}

/// The rows that a grayscale stream codes.
pub open spec fn gray_rows(pixels: Seq<u8>, w: nat, h: nat, lut: Seq<u8>, mapped: bool) -> Seq<Seq<u8>> {
    Seq::new(h, |y: int| map_seq(row_at(pixels, w, y), lut, mapped))
}

/// How many rows from `y` on equal `prev`.
pub open spec fn repeat_count(rows: Seq<Seq<u8>>, y: int, prev: Seq<u8>) -> nat
    decreases rows.len() - y,
{
    if 0 <= y < rows.len() && rows[y] == prev {
        1 + repeat_count(rows, y + 1, prev)
    } else {
        0
    }
}

pub proof fn lemma_repeat_count(rows: Seq<Seq<u8>>, y: int, prev: Seq<u8>)
    requires
        0 <= y <= rows.len(),
    ensures
        y + repeat_count(rows, y, prev) <= rows.len(),
        forall|j: int| y <= j < y + repeat_count(rows, y, prev) ==> rows[j] == prev,
        y + repeat_count(rows, y, prev) < rows.len() ==> rows[y + repeat_count(rows, y, prev)]
            != prev,
    decreases rows.len() - y,
{
    if y < rows.len() && rows[y] == prev {
        lemma_repeat_count(rows, y + 1, prev);
    }
}

/// The coded rows of a grayscale stream from row `y` on: a row equal to the
/// one above starts a run of repeats, written once with its length.
pub open spec fn gray_encode(rows: Seq<Seq<u8>>, y: int, prev: Seq<u8>, t: TableView) -> Seq<u8>
    decreases rows.len() - y,
{
    if y < 0 || y >= rows.len() {
        Seq::empty()
    } else if prev.len() > 0 && rows[y] == prev {
        proof {
            lemma_repeat_count(rows, y, prev);
        }
        let run = repeat_count(rows, y, prev);
        repeat_row(run) + gray_encode(rows, y + run, prev, t)
    } else {
        let e = encode_row(rows[y], prev, t);
        e.0 + gray_encode(rows, y + 1, e.1, e.2)
    }
}

/// The header of an image stream.
pub open spec fn image_header(width: u32, height: u32, channels: u8) -> Seq<u8> {
    IMAGE_MAGIC@ + le_bytes(width as nat, 4) + le_bytes(height as nat, 4) + seq![channels]
}

/// Appends the header of an image stream.
pub(crate) fn push_image_header(out: &mut Vec<u8>, width: u32, height: u32, channels: u8)
    ensures
        final(out)@ == old(out)@ + image_header(width, height, channels),
{
    push_slice(out, &IMAGE_MAGIC);
    push_le(out, width as u64, 4);
    push_le(out, height as u64, 4);
    out.push(channels);
    proof {
        assert(out@ =~= old(out)@ + image_header(width, height, channels));
    }
}

/// A row through the lookup table when `mapped`.
fn map_row(raw: &[u8], lut: &[u8; 256], mapped: bool) -> (v: Vec<u8>)
    ensures
        v@ == map_seq(raw@, lut@, mapped),
        v@.len() == raw@.len(),
{
    let mut v: Vec<u8> = Vec::new();
    let mut i: usize = 0;
    while i < raw.len()
        invariant
            i <= raw@.len(),
            v@ == map_seq(raw@, lut@, mapped).take(i as int),
        decreases raw@.len() - i,
    {
        if mapped {
            v.push(lut[raw[i] as usize]);
        } else {
            v.push(raw[i]);
        }
        proof {
            assert(v@ =~= map_seq(raw@, lut@, mapped).take(i + 1));
        }
        i = i + 1;
    }
    proof {
        assert(v@ =~= map_seq(raw@, lut@, mapped));
    }
    v
}

/// The pixels of row `y`.
fn pixel_row(pixels: &[u8], w: usize, h: usize, y: usize) -> (r: &[u8])
    requires
        pixels@.len() == w * h,
        y < h,
    ensures
        r@ == row_at(pixels@, w as nat, y as int),
        r@.len() == w,
{
    let n = pixels.len();
    assert(y * w + w <= n) by (nonlinear_arith)
        requires
            y < h,
            n == w * h,
    ;
    let start: usize = y * w;
    &pixels[start..start + w]
}

/// Encode rows of an 8-bit image with RepeatPrev run-length acceleration and optional palette mapping.
fn encode_grayscale_stream(
    pixels: &[u8],
    w: usize,
    h: usize,
    lut: &[u8; 256],
    mapped: bool,
    out: &mut Vec<u8>,
)
    requires
        pixels@.len() == w * h,
        w >= 1 || h == 0,
    ensures
        final(out)@ == old(out)@ + gray_encode(
            gray_rows(pixels@, w as nat, h as nat, lut@, mapped),
            0,
            Seq::empty(),
            start_table(),
        ),
{
    let ghost rows = gray_rows(pixels@, w as nat, h as nat, lut@, mapped);
    let mut prev_row: Vec<u8> = Vec::new();
    let mut table = AdaptiveTable::new_skewed();
    let mut y: usize = 0;
    while y < h
        invariant
            y <= h,
            pixels@.len() == w * h,
            w >= 1 || h == 0,
            rows == gray_rows(pixels@, w as nat, h as nat, lut@, mapped),
            prev_row@.len() == 0 || prev_row@.len() == w,
            table@.wf(),
            old(out)@ + gray_encode(rows, 0, Seq::empty(), start_table()) == out@ + gray_encode(
                rows,
                y as int,
                prev_row@,
                table@,
            ),
        decreases h - y,
    {
        let curr = map_row(pixel_row(pixels, w, h, y), lut, mapped);
        proof {
            assert(curr@ == rows[y as int]);
        }
        if prev_row.len() > 0 && rows_equal(curr.as_slice(), prev_row.as_slice()) {
            let ghost y0 = y as int;
            let ghost o0 = out@;
            let mut run: usize = 0;
            let mut more = true;
            proof {
                lemma_repeat_count(rows, y0, prev_row@);
            }
            while more && y < h
                invariant
                    0 <= y0 <= y <= h,
                    y == y0 + run,
                    run <= h,
                    pixels@.len() == w * h,
                    rows == gray_rows(pixels@, w as nat, h as nat, lut@, mapped),
                    forall|j: int| y0 <= j < y ==> rows[j] == prev_row@,
                    !more ==> y < h && rows[y as int] != prev_row@,
                decreases h - y, if more {
                    1int
                } else {
                    0int
                },
            {
                let next = map_row(pixel_row(pixels, w, h, y), lut, mapped);
                if rows_equal(next.as_slice(), prev_row.as_slice()) {
                    run = run + 1;
                    y = y + 1;
                } else {
                    more = false;
                }
            }
            proof {
                lemma_repeat_count(rows, y0, prev_row@);
                let rc = repeat_count(rows, y0, prev_row@);
                if rc < run {
                    assert(rows[y0 + rc] == prev_row@);
                }
                if run < rc {
                    assert(rows[y as int] == prev_row@);
                }
                assert(rc == run);
            }
            out.push(7);
            push_le(out, run as u64, 4);
            proof {
                assert(gray_encode(rows, y0, prev_row@, table@) == repeat_row(run as nat)
                    + gray_encode(rows, y as int, prev_row@, table@));
                assert(out@ =~= o0 + repeat_row(run as nat));
                assert(out@ + gray_encode(rows, y as int, prev_row@, table@) =~= o0 + gray_encode(
                    rows,
                    y0,
                    prev_row@,
                    table@,
                ));
            }
        } else {
            let ghost o0 = out@;
            let ghost p0 = prev_row@;
            let ghost t0 = table@;
            encode_channel_row(curr.as_slice(), &mut prev_row, &mut table, out);
            proof {
                let e = encode_row(curr@, p0, t0);
                assert(gray_encode(rows, y as int, p0, t0) == e.0 + gray_encode(
                    rows,
                    y + 1,
                    e.1,
                    e.2,
                ));
                assert(out@ + gray_encode(rows, y + 1, prev_row@, table@) =~= o0 + gray_encode(
                    rows,
                    y as int,
                    p0,
                    t0,
                ));
            }
            y = y + 1;
        }
    }
}

/// The rows of an image as they are.
pub open spec fn plain_rows(pixels: Seq<u8>, w: nat, h: nat) -> Seq<Seq<u8>> {
    Seq::new(h, |y: int| row_at(pixels, w, y))
}

/// The values below `n` that occur in `pixels`, in increasing order.
pub open spec fn values_below(pixels: Seq<u8>, n: nat) -> Seq<u8>
    decreases n,
{
    if n == 0 {
        Seq::empty()
    } else {
        let pre = values_below(pixels, (n - 1) as nat);
        if pixels.contains((n - 1) as u8) {
            pre.push((n - 1) as u8)
        } else {
            pre
        }
    }
}

/// The palette of a grayscale image: the values that occur, in increasing
/// order.
pub open spec fn gray_palette(pixels: Seq<u8>) -> Seq<u8> {
    values_below(pixels, 256)
}

/// For every value, its position in the palette (zero for values not in it).
pub open spec fn palette_lut(pal: Seq<u8>) -> Seq<u8>
    decreases pal.len(),
{
    if pal.len() == 0 {
        Seq::new(256, |i: int| 0u8)
    } else {
        palette_lut(pal.drop_last()).update(pal.last() as int, (pal.len() - 1) as u8)
    }
}

/// The compressed form of a grayscale image.
pub open spec fn gray_compressed(width: u32, height: u32, pixels: Seq<u8>) -> Result<
    Seq<u8>,
    &'static str,
> {
    let w = width as nat;
    let h = height as nat;
    if pixels.len() != w * h {
        Err("Pixel buffer length does not match width * height")
    } else {
        let pal = gray_palette(pixels);
        let direct = image_header(width, height, 1) + gray_encode(
            plain_rows(pixels, w, h),
            0,
            Seq::empty(),
            start_table(),
        );
        if 2 <= pal.len() <= 16 {
            let indexed = image_header(width, height, 0x81) + seq![pal.len() as u8] + pal
                + gray_encode(
                gray_rows(pixels, w, h, palette_lut(pal), true),
                0,
                Seq::empty(),
                start_table(),
            );
            Ok(
                if indexed.len() <= direct.len() {
                    indexed
                } else {
                    direct
                },
            )
        } else {
            Ok(direct)
        }
    }
}

/// The palette of `pixels`.
fn find_palette(pixels: &[u8]) -> (pal: Vec<u8>)
    ensures
        pal@ == gray_palette(pixels@),
{
    let mut seen: [bool; 256] = [false; 256];
    let mut i: usize = 0;
    while i < pixels.len()
        invariant
            i <= pixels@.len(),
            forall|v: int|
                0 <= v < 256 ==> (#[trigger] seen@[v] <==> exists|j: int|
                    0 <= j < i && pixels@[j] == v),
        decreases pixels@.len() - i,
    {
        let p = pixels[i];
        seen[p as usize] = true;
        proof {
            assert forall|v: int| 0 <= v < 256 implies (#[trigger] seen@[v] <==> exists|j: int|
                0 <= j < i + 1 && pixels@[j] == v) by {
                if v == p as int {
                    assert(pixels@[i as int] == v);
                }
            }
        }
        i = i + 1;
    }
    let mut pal: Vec<u8> = Vec::new();
    let mut v: usize = 0;
    while v < 256
        invariant
            v <= 256,
            pal@ == values_below(pixels@, v as nat),
            forall|x: int|
                0 <= x < 256 ==> (#[trigger] seen@[x] <==> exists|j: int|
                    0 <= j < pixels@.len() && pixels@[j] == x),
        decreases 256 - v,
    {
        proof {
            if pixels@.contains(v as u8) {
                let j = choose|j: int| 0 <= j < pixels@.len() && pixels@[j] == v as u8;
                assert(seen@[v as int]);
            }
            if seen@[v as int] {
                let j = choose|j: int| 0 <= j < pixels@.len() && pixels@[j] == v;
                assert(pixels@.contains(v as u8));
            }
        }
        if seen[v] {
            pal.push(v as u8);
        }
        v = v + 1;
    }
    pal
}

/// The position of every palette value.
fn build_lut(pal: &[u8]) -> (lut: [u8; 256])
    requires
        pal@.len() <= 256,
    ensures
        lut@ == palette_lut(pal@),
{
    let mut lut: [u8; 256] = [0u8; 256];
    let mut i: usize = 0;
    proof {
        assert(pal@.take(0) =~= Seq::<u8>::empty());
        assert(lut@ =~= palette_lut(Seq::<u8>::empty()));
    }
    while i < pal.len()
        invariant
            i <= pal@.len() <= 256,
            lut@ == palette_lut(pal@.take(i as int)),
        decreases pal@.len() - i,
    {
        lut[pal[i] as usize] = i as u8;
        proof {
            assert(pal@.take(i + 1).drop_last() =~= pal@.take(i as int));
            assert(lut@ =~= palette_lut(pal@.take(i + 1)));
        }
        i = i + 1;
    }
    proof {
        assert(pal@.take(pal@.len() as int) =~= pal@);
    }
    lut
}

/// Compress an 8-bit image row-by-row in streaming mode with Auto-Palette support.
/// Memory consumption is O(width), strictly bounded regardless of image height.
pub fn compress_image_grayscale(width: u32, height: u32, pixels: &[u8]) -> (r: Result<
    Vec<u8>,
    &'static str,
>)
    requires
        pixels@.len() == width as nat * height as nat ==> width >= 1 || height == 0,
    ensures
        match gray_compressed(width, height, pixels@) {
            Ok(b) => r matches Ok(v) && v@ == b,
            Err(m) => r == Err::<Vec<u8>, &'static str>(m),
        },
{
    assert(width as u64 * height as u64 <= u64::MAX) by (nonlinear_arith)
        requires
            width <= u32::MAX,
            height <= u32::MAX,
    ;
    let wh: u64 = width as u64 * height as u64;
    if pixels.len() as u64 != wh {
        return Err("Pixel buffer length does not match width * height");
    }
    let w = width as usize;
    let h = height as usize;
    proof {
        assert(pixels@.len() == w * h);
    }
    let zero_lut: [u8; 256] = [0u8; 256];
    let mut direct_out: Vec<u8> = Vec::new();
    push_image_header(&mut direct_out, width, height, 1);
    encode_grayscale_stream(pixels, w, h, &zero_lut, false, &mut direct_out);
    proof {
        assert(gray_rows(pixels@, w as nat, h as nat, zero_lut@, false) =~= plain_rows(
            pixels@,
            w as nat,
            h as nat,
        ));
    }
    let palette = find_palette(pixels);
    if palette.len() >= 2 && palette.len() <= 16 {
        let lut = build_lut(palette.as_slice());
        let mut indexed_out: Vec<u8> = Vec::new();
        push_image_header(&mut indexed_out, width, height, 0x81);
        indexed_out.push(palette.len() as u8);
        push_slice(&mut indexed_out, palette.as_slice());
        encode_grayscale_stream(pixels, w, h, &lut, true, &mut indexed_out);
        proof {
            assert(indexed_out@ =~= image_header(width, height, 0x81) + seq![palette@.len() as u8]
                + palette@ + gray_encode(
                gray_rows(pixels@, w as nat, h as nat, palette_lut(palette@), true),
                0,
                Seq::empty(),
                start_table(),
            ));
        }
        if indexed_out.len() <= direct_out.len() {
            return Ok(indexed_out);
        } else {
            return Ok(direct_out);
        }
    }
    Ok(direct_out)
}

/// A row of palette positions as the palette's values, unless a position is
/// outside the palette.
pub open spec fn pal_apply(row: Seq<u8>, pal: Seq<u8>) -> Option<Seq<u8>> {
    if forall|i: int| 0 <= i < row.len() ==> (#[trigger] row[i] as int) < pal.len() {
        Some(Seq::new(row.len(), |i: int| pal[row[i] as int]))
    } else {
        None
    }
}

/// Decoding `k` more grayscale rows from `off`, `rep` of them still repeats
/// of the row above, after the pixels `acc`.
pub open spec fn gray_decode(
    c: Seq<u8>,
    w: nat,
    k: nat,
    pal: Seq<u8>,
    is_pal: bool,
    off: int,
    prev: Seq<u8>,
    t: TableView,
    rep: nat,
    acc: Seq<u8>,
) -> Result<Seq<u8>, &'static str>
    decreases k,
{
    if k == 0 {
        Ok(acc)
    } else {
        let step: Result<(Seq<u8>, int, Seq<u8>, TableView, nat), &'static str> = if rep > 0 {
            Ok((prev, off, prev, t, (rep - 1) as nat))
        } else {
            match decode_row(c, off, w, prev, t) {
                RowRead::Failed { msg } => Err(msg),
                RowRead::Row { next, row, prev: p2, table, repeats } => Ok(
                    (row, next, p2, table, repeats),
                ),
            }
        };
        match step {
            Err(m) => Err(m),
            Ok(s) => {
                let out_row = if is_pal {
                    pal_apply(s.0, pal)
                } else {
                    Some(s.0)
                };
                match out_row {
                    None => Err("Palette index out of bounds"),
                    Some(r) => gray_decode(c, w, (k - 1) as nat, pal, is_pal, s.1, s.2, s.3, s.4, acc + r),
                }
            },
        }
    }
}

/// The outcome of decompressing a grayscale image stream.
pub open spec fn gray_decompressed(c: Seq<u8>) -> Result<(u32, u32, Seq<u8>), &'static str> {
    if c.len() < 13 || c.take(4) != IMAGE_MAGIC@ {
        Err("Invalid Tether Image magic header")
    } else {
        let width = u32_at(c, 4) as u32;
        let height = u32_at(c, 8) as u32;
        let ch = c[12];
        if ch != 1 && ch != 0x81 {
            Err("Expected 1-channel grayscale image")
        } else if ch == 0x81 && 13 >= c.len() {
            Err("Truncated palette header")
        } else if ch == 0x81 && 14 + c[13] > c.len() {
            Err("Truncated palette entries")
        } else {
            let is_pal = ch == 0x81;
            let pal = if is_pal {
                c.subrange(14, 14 + c[13])
            } else {
                Seq::empty()
            };
            let off = if is_pal {
                14 + c[13]
            } else {
                13
            };
            match gray_decode(
                c,
                width as nat,
                height as nat,
                pal,
                is_pal,
                off,
                Seq::empty(),
                start_table(),
                0,
                Seq::empty(),
            ) {
                Err(m) => Err(m),
                Ok(px) => Ok((width, height, px)),
            }
        }
    }
}

/// Whether `c` starts with `IMAGE_MAGIC`.
pub(crate) fn has_image_magic(c: &[u8]) -> (b: bool)
    requires
        c@.len() >= 4,
    ensures
        b == (c@.take(4) == IMAGE_MAGIC@),
{
    let b = c[0] == IMAGE_MAGIC[0] && c[1] == IMAGE_MAGIC[1] && c[2] == IMAGE_MAGIC[2] && c[3]
        == IMAGE_MAGIC[3];
    proof {
        if b {
            assert(c@.take(4) =~= IMAGE_MAGIC@);
        } else if c@.take(4) == IMAGE_MAGIC@ {
            assert(c@.take(4)[0] == IMAGE_MAGIC@[0]);
            assert(c@.take(4)[1] == IMAGE_MAGIC@[1]);
            assert(c@.take(4)[2] == IMAGE_MAGIC@[2]);
            assert(c@.take(4)[3] == IMAGE_MAGIC@[3]);
        }
    }
    b
}

/// The row's palette values, or `None` when a position is outside the palette.
fn apply_palette(row: &[u8], pal: &[u8]) -> (r: Option<Vec<u8>>)
    ensures
        match pal_apply(row@, pal@) {
            Some(s) => r matches Some(v) && v@ == s,
            None => r is None,
        },
{
    let mut v: Vec<u8> = Vec::new();
    let mut i: usize = 0;
    while i < row.len()
        invariant
            i <= row@.len(),
            forall|j: int| 0 <= j < i ==> (#[trigger] row@[j] as int) < pal@.len(),
            v@ == Seq::new(i as nat, |j: int| pal@[row@[j] as int]),
        decreases row@.len() - i,
    {
        let idx = row[i] as usize;
        if idx >= pal.len() {
            return None;
        }
        v.push(pal[idx]);
        i = i + 1;
        proof {
            assert(v@ =~= Seq::new(i as nat, |j: int| pal@[row@[j] as int]));
        }
    }
    Some(v)
}

/// Decompress an 8-bit grayscale image row-by-row.
pub fn decompress_image_grayscale(compressed: &[u8]) -> (r: Result<(u32, u32, Vec<u8>), &'static str>)
    ensures
        match gray_decompressed(compressed@) {
            Ok(x) => r matches Ok(v) && v.0 == x.0 && v.1 == x.1 && v.2@ == x.2,
            Err(m) => r == Err::<(u32, u32, Vec<u8>), &'static str>(m),
        },
{
    let len = compressed.len();
    if len < 13 || !has_image_magic(compressed) {
        return Err("Invalid Tether Image magic header");
    }
    let width = read_u32_at(compressed, 4) as u32;
    let height = read_u32_at(compressed, 8) as u32;
    let channels_byte = compressed[12];
    if channels_byte != 1 && channels_byte != 0x81 {
        return Err("Expected 1-channel grayscale image");
    }
    let is_palette = channels_byte == 0x81;
    let mut offset: usize = 13;
    let mut palette: Vec<u8> = Vec::new();
    if is_palette {
        if offset >= len {
            return Err("Truncated palette header");
        }
        let pal_len = compressed[offset] as usize;
        offset = offset + 1;
        if pal_len > len - offset {
            return Err("Truncated palette entries");
        }
        copy_row(&mut palette, &compressed[offset..offset + pal_len]);
        offset = offset + pal_len;
    }
    let w = width as usize;
    let h = height as usize;
    let ghost whole = gray_decode(
        compressed@,
        w as nat,
        h as nat,
        palette@,
        is_palette,
        offset as int,
        Seq::empty(),
        start_table(),
        0,
        Seq::empty(),
    );
    let mut pixels: Vec<u8> = Vec::new();
    let mut prev_row: Vec<u8> = Vec::new();
    let mut table = AdaptiveTable::new_skewed();
    let mut curr_row: Vec<u8> = Vec::new();
    let mut remaining_repeats: usize = 0;
    proof {
        crate::entropy::adaptive_table::lemma_normalized_wf(skewed_raw());
        assert(gray_decompressed(compressed@) == match whole {
            Err(m) => Err(m),
            Ok(px) => Ok((width, height, px)),
        });
    }
    let mut i: usize = 0;
    while i < h
        invariant
            i <= h,
            gray_decompressed(compressed@) == match whole {
                Err(m) => Err(m),
                Ok(px) => Ok::<(u32, u32, Seq<u8>), &'static str>((width, height, px)),
            },
            offset <= compressed@.len(),
            prev_row@.len() == 0 || prev_row@.len() == w,
            table@.wf(),
            whole == gray_decode(
                compressed@,
                w as nat,
                (h - i) as nat,
                palette@,
                is_palette,
                offset as int,
                prev_row@,
                table@,
                remaining_repeats as nat,
                pixels@,
            ),
        decreases h - i,
    {
        proof {
            crate::image::row_codec::lemma_decode_row_shape(
                compressed@,
                offset as int,
                w as nat,
                prev_row@,
                table@,
            );
        }
        if remaining_repeats > 0 {
            remaining_repeats = remaining_repeats - 1;
            copy_row(&mut curr_row, prev_row.as_slice());
        } else {
            match decode_channel_row_repeat(
                w,
                compressed,
                &mut offset,
                &mut prev_row,
                &mut table,
                &mut curr_row,
                &mut remaining_repeats,
            ) {
                Ok(()) => {},
                Err(e) => {
                    return Err(e);
                },
            }
        }
        if is_palette {
            match apply_palette(curr_row.as_slice(), palette.as_slice()) {
                Some(mapped) => {
                    push_slice(&mut pixels, mapped.as_slice());
                },
                None => {
                    return Err("Palette index out of bounds");
                },
            }
        } else {
            push_slice(&mut pixels, curr_row.as_slice());
        }
        i = i + 1;
    }
    Ok((width, height, pixels))
}

/// Row `y` of an RGB image `w` pixels wide: three bytes per pixel.
pub open spec fn rgb_row(pixels: Seq<u8>, w: nat, y: int) -> Seq<u8> {
    pixels.subrange(3 * w * y, 3 * w * y + 3 * w)
}

/// The green plane of an RGB row.
pub open spec fn g_plane(row: Seq<u8>, w: nat) -> Seq<u8> {
    Seq::new(w, |i: int| row[3 * i + 1])
}

/// The red plane of an RGB row, less green.
pub open spec fn rg_plane(row: Seq<u8>, w: nat) -> Seq<u8> {
    Seq::new(w, |i: int| row[3 * i].wrapping_sub(row[3 * i + 1]))
}

/// The blue plane of an RGB row, less green.
pub open spec fn bg_plane(row: Seq<u8>, w: nat) -> Seq<u8> {
    Seq::new(w, |i: int| row[3 * i + 2].wrapping_sub(row[3 * i + 1]))
}

/// The coded rows of an RGB image from row `y` on: per row the green,
/// red-less-green and blue-less-green planes, each with its own row above
/// and table.
#[verifier::opaque]
pub open spec fn rgb_encode(
    pixels: Seq<u8>,
    w: nat,
    h: nat,
    y: int,
    pg: Seq<u8>,
    pr: Seq<u8>,
    pb: Seq<u8>,
    tg: TableView,
    tr: TableView,
    tb: TableView,
) -> Seq<u8>
    decreases h - y,
{
    if y < 0 || y >= h {
        Seq::empty()
    } else {
        let row = rgb_row(pixels, w, y);
        let eg = encode_row(g_plane(row, w), pg, tg);
        let er = encode_row(rg_plane(row, w), pr, tr);
        let eb = encode_row(bg_plane(row, w), pb, tb);
        eg.0 + er.0 + eb.0 + rgb_encode(pixels, w, h, y + 1, eg.1, er.1, eb.1, eg.2, er.2, eb.2)
    }
}

/// The compressed form of an RGB image.
pub open spec fn rgb_compressed(width: u32, height: u32, pixels: Seq<u8>) -> Result<
    Seq<u8>,
    &'static str,
> {
    let w = width as nat;
    let h = height as nat;
    if pixels.len() != w * h * 3 {
        Err("Pixel buffer length does not match width * height * 3")
    } else {
        Ok(
            image_header(width, height, 3) + rgb_encode(
                pixels,
                w,
                h,
                0,
                Seq::empty(),
                Seq::empty(),
                Seq::empty(),
                start_table(),
                start_table(),
                start_table(),
            ),
        )
    }
}

/// The planes of one RGB row.
fn split_planes(row: &[u8], w: usize) -> (r: (Vec<u8>, Vec<u8>, Vec<u8>))
    requires
        row@.len() == 3 * w,
    ensures
        r.0@ == g_plane(row@, w as nat),
        r.1@ == rg_plane(row@, w as nat),
        r.2@ == bg_plane(row@, w as nat),
{
    let mut g: Vec<u8> = Vec::new();
    let mut rr: Vec<u8> = Vec::new();
    let mut b: Vec<u8> = Vec::new();
    let rl = row.len();
    let mut i: usize = 0;
    while i < w
        invariant
            i <= w,
            row@.len() == 3 * w,
            rl == 3 * w,
            g@ == g_plane(row@, w as nat).take(i as int),
            rr@ == rg_plane(row@, w as nat).take(i as int),
            b@ == bg_plane(row@, w as nat).take(i as int),
        decreases w - i,
    {
        let red = row[i * 3];
        let green = row[i * 3 + 1];
        let blue = row[i * 3 + 2];
        g.push(green);
        rr.push(red.wrapping_sub(green));
        b.push(blue.wrapping_sub(green));
        proof {
            assert(g@ =~= g_plane(row@, w as nat).take(i + 1));
            assert(rr@ =~= rg_plane(row@, w as nat).take(i + 1));
            assert(b@ =~= bg_plane(row@, w as nat).take(i + 1));
        }
        i = i + 1;
    }
    proof {
        assert(g@ =~= g_plane(row@, w as nat));
        assert(rr@ =~= rg_plane(row@, w as nat));
        assert(b@ =~= bg_plane(row@, w as nat));
    }
    (g, rr, b)
}

/// One row of `rgb_encode`.
pub(crate) proof fn lemma_rgb_encode_step(
    pixels: Seq<u8>,
    w: nat,
    h: nat,
    y: int,
    pg: Seq<u8>,
    pr: Seq<u8>,
    pb: Seq<u8>,
    tg: TableView,
    tr: TableView,
    tb: TableView,
)
    requires
        0 <= y < h,
    ensures
        ({
            let row = rgb_row(pixels, w, y);
            let eg = encode_row(g_plane(row, w), pg, tg);
            let er = encode_row(rg_plane(row, w), pr, tr);
            let eb = encode_row(bg_plane(row, w), pb, tb);
            rgb_encode(pixels, w, h, y, pg, pr, pb, tg, tr, tb) == eg.0 + er.0 + eb.0 + rgb_encode(
                pixels,
                w,
                h,
                y + 1,
                eg.1,
                er.1,
                eb.1,
                eg.2,
                er.2,
                eb.2,
            )
        }),
{
    reveal(rgb_encode);
}

/// Compress an 8-bit RGB image row-by-row using reversible color decorrelation (G, R-G, B-G).
pub fn compress_image_rgb(width: u32, height: u32, pixels: &[u8]) -> (r: Result<
    Vec<u8>,
    &'static str,
>)
    requires
        pixels@.len() == width as nat * height as nat * 3 ==> width >= 1 || height == 0,
    ensures
        match rgb_compressed(width, height, pixels@) {
            Ok(b) => r matches Ok(v) && v@ == b,
            Err(m) => r == Err::<Vec<u8>, &'static str>(m),
        },
{
    assert(width as u128 * height as u128 * 3 <= u128::MAX) by (nonlinear_arith)
        requires
            width <= u32::MAX,
            height <= u32::MAX,
    ;
    let whc: u128 = width as u128 * height as u128 * 3;
    if pixels.len() as u128 != whc {
        return Err("Pixel buffer length does not match width * height * 3");
    }
    let w = width as usize;
    let h = height as usize;
    let mut out: Vec<u8> = Vec::new();
    push_image_header(&mut out, width, height, 3);
    let mut prev_g: Vec<u8> = Vec::new();
    let mut prev_r: Vec<u8> = Vec::new();
    let mut prev_b: Vec<u8> = Vec::new();
    let mut table_g = AdaptiveTable::new_skewed();
    let mut table_r = AdaptiveTable::new_skewed();
    let mut table_b = AdaptiveTable::new_skewed();
    let ghost head = out@;
    let mut y: usize = 0;
    while y < h
        invariant
            y <= h,
            pixels@.len() == w * h * 3,
            w >= 1 || h == 0,
            w == width as nat,
            h == height as nat,
            prev_g@.len() == 0 || prev_g@.len() == w,
            prev_r@.len() == 0 || prev_r@.len() == w,
            prev_b@.len() == 0 || prev_b@.len() == w,
            table_g@.wf(),
            table_r@.wf(),
            table_b@.wf(),
            head + rgb_encode(
                pixels@,
                w as nat,
                h as nat,
                0,
                Seq::empty(),
                Seq::empty(),
                Seq::empty(),
                start_table(),
                start_table(),
                start_table(),
            ) == out@ + rgb_encode(
                pixels@,
                w as nat,
                h as nat,
                y as int,
                prev_g@,
                prev_r@,
                prev_b@,
                table_g@,
                table_r@,
                table_b@,
            ),
        decreases h - y,
    {
        let n = pixels.len();
        assert(3 * w * y + 3 * w <= n) by (nonlinear_arith)
            requires
                y < h,
                n == w * h * 3,
        ;
        let start: usize = 3 * w * y;
        let row_bytes = &pixels[start..start + 3 * w];
        let (curr_g, curr_r, curr_b) = split_planes(row_bytes, w);
        let ghost o0 = out@;
        let ghost pg0 = prev_g@;
        let ghost pr0 = prev_r@;
        let ghost pb0 = prev_b@;
        let ghost tg0 = table_g@;
        let ghost tr0 = table_r@;
        let ghost tb0 = table_b@;
        proof {
            lemma_rgb_encode_step(pixels@, w as nat, h as nat, y as int, pg0, pr0, pb0, tg0, tr0, tb0);
        }
        encode_channel_row(curr_g.as_slice(), &mut prev_g, &mut table_g, &mut out);
        let ghost o1 = out@;
        encode_channel_row(curr_r.as_slice(), &mut prev_r, &mut table_r, &mut out);
        let ghost o2 = out@;
        encode_channel_row(curr_b.as_slice(), &mut prev_b, &mut table_b, &mut out);
        proof {
            let rest = rgb_encode(
                pixels@,
                w as nat,
                h as nat,
                y + 1,
                prev_g@,
                prev_r@,
                prev_b@,
                table_g@,
                table_r@,
                table_b@,
            );
            let eg = encode_row(curr_g@, pg0, tg0);
            let er = encode_row(curr_r@, pr0, tr0);
            let eb = encode_row(curr_b@, pb0, tb0);
            assert(row_bytes@ == rgb_row(pixels@, w as nat, y as int));
            assert(out@ == o0 + eg.0 + er.0 + eb.0);
            assert(o0 + (eg.0 + er.0 + eb.0 + rest) =~= out@ + rest);
        }
        y = y + 1;
    }
    proof {
        reveal(rgb_encode);
        assert(out@ + Seq::<u8>::empty() =~= out@);
        assert(out@ =~= image_header(width, height, 3) + rgb_encode(
            pixels@,
            w as nat,
            h as nat,
            0,
            Seq::empty(),
            Seq::empty(),
            Seq::empty(),
            start_table(),
            start_table(),
            start_table(),
        ));
    }
    Ok(out)
}

/// An RGB row from its green, red-less-green and blue-less-green planes.
pub open spec fn interleave(g: Seq<u8>, rr: Seq<u8>, bb: Seq<u8>) -> Seq<u8> {
    Seq::new(
        3 * g.len(),
        |j: int|
            if j % 3 == 0 {
                rr[j / 3].wrapping_add(g[j / 3])
            } else if j % 3 == 1 {
                g[j / 3]
            } else {
                bb[j / 3].wrapping_add(g[j / 3])
            },
    )
}

/// Decoding `k` more RGB rows from `off`, after the pixels `acc`.
#[verifier::opaque]
pub open spec fn rgb_decode(
    c: Seq<u8>,
    w: nat,
    k: nat,
    off: int,
    pg: Seq<u8>,
    pr: Seq<u8>,
    pb: Seq<u8>,
    tg: TableView,
    tr: TableView,
    tb: TableView,
    acc: Seq<u8>,
) -> Result<Seq<u8>, &'static str>
    decreases k,
{
    if k == 0 {
        Ok(acc)
    } else {
        match decode_row(c, off, w, pg, tg) {
            RowRead::Failed { msg } => Err(msg),
            RowRead::Row { next: o1, row: g, prev: pg2, table: tg2, repeats: _ } => {
                match decode_row(c, o1, w, pr, tr) {
                    RowRead::Failed { msg } => Err(msg),
                    RowRead::Row { next: o2, row: rr, prev: pr2, table: tr2, repeats: _ } => {
                        match decode_row(c, o2, w, pb, tb) {
                            RowRead::Failed { msg } => Err(msg),
                            RowRead::Row { next: o3, row: bb, prev: pb2, table: tb2, repeats: _ } => {
                                rgb_decode(
                                    c,
                                    w,
                                    (k - 1) as nat,
                                    o3,
                                    pg2,
                                    pr2,
                                    pb2,
                                    tg2,
                                    tr2,
                                    tb2,
                                    acc + interleave(g, rr, bb),
                                )
                            },
                        }
                    },
                }
            },
        }
    }
}

/// The outcome of decompressing an RGB image stream.
pub open spec fn rgb_decompressed(c: Seq<u8>) -> Result<(u32, u32, Seq<u8>), &'static str> {
    if c.len() < 13 || c.take(4) != IMAGE_MAGIC@ {
        Err("Invalid Tether Image magic header")
    } else {
        let width = u32_at(c, 4) as u32;
        let height = u32_at(c, 8) as u32;
        if c[12] != 3 {
            Err("Expected 3-channel RGB image")
        } else {
            match rgb_decode(
                c,
                width as nat,
                height as nat,
                13,
                Seq::empty(),
                Seq::empty(),
                Seq::empty(),
                start_table(),
                start_table(),
                start_table(),
                Seq::empty(),
            ) {
                Err(m) => Err(m),
                Ok(px) => Ok((width, height, px)),
            }
        }
    }
}

/// Appends the RGB pixels of a row's planes.
fn push_interleaved(g: &[u8], rr: &[u8], bb: &[u8], out: &mut Vec<u8>)
    requires
        rr@.len() == g@.len(),
        bb@.len() == g@.len(),
    ensures
        final(out)@ == old(out)@ + interleave(g@, rr@, bb@),
{
    let mut i: usize = 0;
    while i < g.len()
        invariant
            i <= g@.len(),
            rr@.len() == g@.len(),
            bb@.len() == g@.len(),
            out@ == old(out)@ + interleave(g@, rr@, bb@).take(3 * i),
        decreases g@.len() - i,
    {
        let gv = g[i];
        out.push(rr[i].wrapping_add(gv));
        out.push(gv);
        out.push(bb[i].wrapping_add(gv));
        proof {
            let s = interleave(g@, rr@, bb@);
            assert(s[3 * i] == rr@[i as int].wrapping_add(gv));
            assert(s[3 * i + 1] == gv);
            assert(s[3 * i + 2] == bb@[i as int].wrapping_add(gv));
            assert(out@ =~= old(out)@ + s.take(3 * (i + 1)));
        }
        i = i + 1;
    }
    proof {
        assert(interleave(g@, rr@, bb@).take(3 * g@.len() as int) =~= interleave(g@, rr@, bb@));
    }
}

/// Decompress an 8-bit RGB image row-by-row.
pub fn decompress_image_rgb(compressed: &[u8]) -> (r: Result<(u32, u32, Vec<u8>), &'static str>)
    ensures
        match rgb_decompressed(compressed@) {
            Ok(x) => r matches Ok(v) && v.0 == x.0 && v.1 == x.1 && v.2@ == x.2,
            Err(m) => r == Err::<(u32, u32, Vec<u8>), &'static str>(m),
        },
{
    let len = compressed.len();
    if len < 13 || !has_image_magic(compressed) {
        return Err("Invalid Tether Image magic header");
    }
    let width = read_u32_at(compressed, 4) as u32;
    let height = read_u32_at(compressed, 8) as u32;
    if compressed[12] != 3 {
        return Err("Expected 3-channel RGB image");
    }
    let w = width as usize;
    let h = height as usize;
    let mut pixels: Vec<u8> = Vec::new();
    let mut prev_g: Vec<u8> = Vec::new();
    let mut prev_r: Vec<u8> = Vec::new();
    let mut prev_b: Vec<u8> = Vec::new();
    let mut curr_g: Vec<u8> = Vec::new();
    let mut curr_r: Vec<u8> = Vec::new();
    let mut curr_b: Vec<u8> = Vec::new();
    let mut table_g = AdaptiveTable::new_skewed();
    let mut table_r = AdaptiveTable::new_skewed();
    let mut table_b = AdaptiveTable::new_skewed();
    let mut offset: usize = 13;
    let ghost whole = rgb_decode(
        compressed@,
        w as nat,
        h as nat,
        13,
        Seq::empty(),
        Seq::empty(),
        Seq::empty(),
        start_table(),
        start_table(),
        start_table(),
        Seq::empty(),
    );
    proof {
        crate::entropy::adaptive_table::lemma_normalized_wf(skewed_raw());
    }
    let mut i: usize = 0;
    while i < h
        invariant
            i <= h,
            rgb_decompressed(compressed@) == match whole {
                Err(m) => Err(m),
                Ok(px) => Ok::<(u32, u32, Seq<u8>), &'static str>((width, height, px)),
            },
            offset <= compressed@.len(),
            prev_g@.len() == 0 || prev_g@.len() == w,
            prev_r@.len() == 0 || prev_r@.len() == w,
            prev_b@.len() == 0 || prev_b@.len() == w,
            table_g@.wf(),
            table_r@.wf(),
            table_b@.wf(),
            whole == rgb_decode(
                compressed@,
                w as nat,
                (h - i) as nat,
                offset as int,
                prev_g@,
                prev_r@,
                prev_b@,
                table_g@,
                table_r@,
                table_b@,
                pixels@,
            ),
        decreases h - i,
    {
        let ghost o0 = offset as int;
        let ghost st = (prev_g@, prev_r@, prev_b@, table_g@, table_r@, table_b@);
        proof {
            reveal(rgb_decode);
            crate::image::row_codec::lemma_decode_row_shape(compressed@, o0, w as nat, st.0, st.3);
        }
        match decode_channel_row(w, compressed, &mut offset, &mut prev_g, &mut table_g, &mut curr_g) {
            Ok(()) => {},
            Err(e) => {
                return Err(e);
            },
        }
        let ghost o1 = offset as int;
        proof {
            crate::image::row_codec::lemma_decode_row_shape(compressed@, o1, w as nat, st.1, st.4);
        }
        match decode_channel_row(w, compressed, &mut offset, &mut prev_r, &mut table_r, &mut curr_r) {
            Ok(()) => {},
            Err(e) => {
                return Err(e);
            },
        }
        let ghost o2 = offset as int;
        proof {
            crate::image::row_codec::lemma_decode_row_shape(compressed@, o2, w as nat, st.2, st.5);
        }
        match decode_channel_row(w, compressed, &mut offset, &mut prev_b, &mut table_b, &mut curr_b) {
            Ok(()) => {},
            Err(e) => {
                return Err(e);
            },
        }
        push_interleaved(curr_g.as_slice(), curr_r.as_slice(), curr_b.as_slice(), &mut pixels);
        i = i + 1;
    }
    proof {
        reveal(rgb_decode);
    }
    Ok((width, height, pixels))
}

/// Unified image compressor supporting 1-channel (grayscale) and 3-channel (RGB).
pub fn compress_image(width: u32, height: u32, channels: u8, pixels: &[u8]) -> (r: Result<
    Vec<u8>,
    &'static str,
>)
    requires
        channels == 1 && pixels@.len() == width as nat * height as nat ==> width >= 1 || height
            == 0,
        channels == 3 && pixels@.len() == width as nat * height as nat * 3 ==> width >= 1
            || height == 0,
    ensures
        match image_compressed(width, height, channels, pixels@) {
            Ok(b) => r matches Ok(v) && v@ == b,
            Err(m) => r == Err::<Vec<u8>, &'static str>(m),
        },
{
    match channels {
        1 => compress_image_grayscale(width, height, pixels),
        3 => compress_image_rgb(width, height, pixels),
        _ => Err("Unsupported channel count (only 1 or 3 supported)"),
    }
}

/// The compressed form of an image with `channels` channels.
pub open spec fn image_compressed(width: u32, height: u32, channels: u8, pixels: Seq<u8>) -> Result<
    Seq<u8>,
    &'static str,
> {
    if channels == 1 {
        gray_compressed(width, height, pixels)
    } else if channels == 3 {
        rgb_compressed(width, height, pixels)
    } else {
        Err("Unsupported channel count (only 1 or 3 supported)")
    }
}

/// The outcome of decompressing an image stream: width, height, channels
/// and pixels.
pub open spec fn image_decompressed(c: Seq<u8>) -> Result<(u32, u32, u8, Seq<u8>), &'static str> {
    if c.len() < 13 || c.take(4) != IMAGE_MAGIC@ {
        Err("Invalid Tether Image magic header")
    } else if c[12] == 1 || c[12] == 0x81 {
        match gray_decompressed(c) {
            Err(m) => Err(m),
            Ok(x) => Ok((x.0, x.1, 1u8, x.2)),
        }
    } else if c[12] == 3 {
        match rgb_decompressed(c) {
            Err(m) => Err(m),
            Ok(x) => Ok((x.0, x.1, 3u8, x.2)),
        }
    } else {
        Err("Unsupported channel count in header")
    }
}

/// Unified image decompressor supporting 1-channel (grayscale) and 3-channel (RGB).
pub fn decompress_image(compressed: &[u8]) -> (r: Result<(u32, u32, u8, Vec<u8>), &'static str>)
    ensures
        match image_decompressed(compressed@) {
            Ok(x) => r matches Ok(v) && v.0 == x.0 && v.1 == x.1 && v.2 == x.2 && v.3@ == x.3,
            Err(m) => r == Err::<(u32, u32, u8, Vec<u8>), &'static str>(m),
        },
{
    if compressed.len() < 13 || !has_image_magic(compressed) {
        return Err("Invalid Tether Image magic header");
    }
    let channels = compressed[12];
    if channels == 1 || channels == 0x81 {
        match decompress_image_grayscale(compressed) {
            Ok((w, h, p)) => Ok((w, h, 1, p)),
            Err(e) => Err(e),
        }
    } else if channels == 3 {
        match decompress_image_rgb(compressed) {
            Ok((w, h, p)) => Ok((w, h, 3, p)),
            Err(e) => Err(e),
        }
    } else {
        Err("Unsupported channel count in header")
    }
}

} // verus!
