//! Decompressing a compressed image gives the image back.

use vstd::prelude::*;
use crate::codec::start_table;
use crate::entropy::adaptive_table::{TableView, lemma_normalized_wf, skewed_raw};
use crate::image::image_codec::{gray_encode, gray_decode, gray_rows, plain_rows, row_at,
    repeat_count, lemma_repeat_count, pal_apply, values_below, gray_palette, palette_lut,
    gray_compressed, gray_decompressed, image_header, IMAGE_MAGIC, rgb_row, g_plane, rg_plane,
    bg_plane, interleave, rgb_encode, rgb_decode, rgb_compressed, rgb_decompressed,
    image_compressed, image_decompressed, lemma_rgb_encode_step};
use crate::image::row_codec::{encode_row, decode_row, RowRead, repeat_row, u32_at};
use crate::image::row_roundtrip::lemma_row_roundtrip;
use crate::le_bytes::{le_bytes, lemma_le_bytes_len, lemma_le_bytes_roundtrip, lemma_pow256_values};

verus! {

/// The rows from `y` on, one after another.
pub open spec fn concat_from(rows: Seq<Seq<u8>>, y: int) -> Seq<u8>
    decreases rows.len() - y,
{
    if y < 0 || y >= rows.len() {
        Seq::empty()
    } else {
        rows[y] + concat_from(rows, y + 1)
    }
}

/// The rows of an image one after another are its pixels.
pub proof fn lemma_concat_rows(pixels: Seq<u8>, w: nat, h: nat, y: nat)
    requires
        pixels.len() == w * h,
        y <= h,
    ensures
        concat_from(plain_rows(pixels, w, h), y as int) == pixels.subrange(
            (y * w) as int,
            (w * h) as int,
        ),
    decreases h - y,
{
    let rows = plain_rows(pixels, w, h);
    if y < h {
        lemma_concat_rows(pixels, w, h, y + 1);
        assert((y + 1) * w == y * w + w && y * w + w <= w * h) by (nonlinear_arith)
            requires
                y < h,
        ;
        assert(rows[y as int] + pixels.subrange(((y + 1) * w) as int, (w * h) as int)
            =~= pixels.subrange((y * w) as int, (w * h) as int));
    } else {
        assert(y * w == w * h) by (nonlinear_arith)
            requires
                y == h,
        ;
    }
}

/// The rows from `a` up to `b`, one after another.
pub open spec fn concat_range(rows: Seq<Seq<u8>>, a: int, b: int) -> Seq<u8>
    decreases b - a,
{
    if a < 0 || a >= b {
        Seq::empty()
    } else {
        rows[a] + concat_range(rows, a + 1, b)
    }
}

proof fn lemma_concat_split(rows: Seq<Seq<u8>>, a: int, b: int)
    requires
        0 <= a <= b <= rows.len(),
    ensures
        concat_from(rows, a) == concat_range(rows, a, b) + concat_from(rows, b),
    decreases b - a,
{
    if a < b {
        lemma_concat_split(rows, a + 1, b);
        assert(rows[a] + (concat_range(rows, a + 1, b) + concat_from(rows, b)) =~= rows[a]
            + concat_range(rows, a + 1, b) + concat_from(rows, b));
    } else {
        assert(Seq::<u8>::empty() + concat_from(rows, b) =~= concat_from(rows, b));
    }
}

/// The rows of a grayscale stream decode to `orig`: through the palette,
/// or as they are.
pub open spec fn rows_decode_to(rows: Seq<Seq<u8>>, orig: Seq<Seq<u8>>, pal: Seq<u8>, is_pal: bool) -> bool {
    &&& orig.len() == rows.len()
    &&& forall|j: int|
        0 <= j < rows.len() ==> if is_pal {
            pal_apply(#[trigger] rows[j], pal) == Some(orig[j])
        } else {
            rows[j] == orig[j]
        }
}

/// Decoding the repeats of the row above.
proof fn lemma_gray_skip(
    c: Seq<u8>,
    w: nat,
    rows: Seq<Seq<u8>>,
    orig: Seq<Seq<u8>>,
    pal: Seq<u8>,
    is_pal: bool,
    y: int,
    r: nat,
    off: int,
    prev: Seq<u8>,
    t: TableView,
    acc: Seq<u8>,
)
    requires
        0 <= y,
        y + r <= rows.len(),
        rows_decode_to(rows, orig, pal, is_pal),
        forall|j: int| y <= j < y + r ==> #[trigger] rows[j] == prev,
    ensures
        gray_decode(c, w, (rows.len() - y) as nat, pal, is_pal, off, prev, t, r, acc) == gray_decode(
            c,
            w,
            (rows.len() - y - r) as nat,
            pal,
            is_pal,
            off,
            prev,
            t,
            0,
            acc + concat_range(orig, y, y + r),
        ),
    decreases r,
{
    if r == 0 {
        assert(acc + concat_range(orig, y, y) =~= acc);
    } else {
        assert(rows[y] == prev);
        lemma_gray_skip(c, w, rows, orig, pal, is_pal, y + 1, (r - 1) as nat, off, prev, t, acc + orig[y]);
        assert(acc + orig[y] + concat_range(orig, y + 1, y + r) =~= acc + concat_range(orig, y, y + r));
    }
}

/// Reading a run-of-repeats row.
proof fn lemma_repeat_row_read(c: Seq<u8>, off: int, run: nat, w: nat, prev: Seq<u8>, t: TableView)
    requires
        0 <= off,
        1 <= run <= u32::MAX,
        prev.len() == w,
        off + 5 <= c.len(),
        c.subrange(off, off + 5) == repeat_row(run),
    ensures
        decode_row(c, off, w, prev, t) == (RowRead::Row {
            next: off + 5,
            row: prev,
            prev,
            table: t,
            repeats: (run - 1) as nat,
        }),
{
    reveal(decode_row);
    lemma_pow256_values();
    lemma_le_bytes_len(run, 4);
    assert(c[off] == repeat_row(run)[0]);
    assert(c.subrange(off + 1, off + 5) =~= repeat_row(run).subrange(1, 5));
    assert(repeat_row(run).subrange(1, 5) =~= le_bytes(run, 4));
    lemma_le_bytes_roundtrip(run, 4);
}

/// Decoding the rows of a grayscale stream from row `y` gives the rows they
/// stand for.
proof fn lemma_gray_decode_rows(
    c: Seq<u8>,
    w: nat,
    rows: Seq<Seq<u8>>,
    orig: Seq<Seq<u8>>,
    pal: Seq<u8>,
    is_pal: bool,
    y: int,
    off: int,
    prev: Seq<u8>,
    t: TableView,
    acc: Seq<u8>,
)
    requires
        1 <= w <= 65535,
        rows.len() <= u32::MAX,
        forall|j: int| 0 <= j < rows.len() ==> (#[trigger] rows[j]).len() == w,
        0 <= y <= rows.len(),
        prev.len() == 0 || prev.len() == w,
        t.wf(),
        rows_decode_to(rows, orig, pal, is_pal),
        0 <= off,
        off + gray_encode(rows, y, prev, t).len() <= c.len(),
        c.subrange(off, off + gray_encode(rows, y, prev, t).len()) == gray_encode(rows, y, prev, t),
    ensures
        gray_decode(c, w, (rows.len() - y) as nat, pal, is_pal, off, prev, t, 0, acc) == Ok::<
            Seq<u8>,
            &'static str,
        >(acc + concat_from(orig, y)),
    decreases rows.len() - y,
{
    let e = gray_encode(rows, y, prev, t);
    if y == rows.len() {
        assert(acc + Seq::<u8>::empty() =~= acc);
    } else if prev.len() > 0 && rows[y] == prev {
        lemma_repeat_count(rows, y, prev);
        let run = repeat_count(rows, y, prev);
        let e2 = gray_encode(rows, y + run, prev, t);
        assert(e == repeat_row(run) + e2);
        lemma_le_bytes_len(run, 4);
        assert(c.subrange(off, off + 5) =~= e.subrange(0, 5));
        assert(e.subrange(0, 5) =~= repeat_row(run));
        lemma_repeat_row_read(c, off, run, w, prev, t);
        assert(c.subrange(off + 5, off + 5 + e2.len()) =~= e.subrange(5, e.len() as int));
        assert(e.subrange(5, e.len() as int) =~= e2);
        let acc1 = acc + orig[y];
        lemma_gray_skip(c, w, rows, orig, pal, is_pal, y + 1, (run - 1) as nat, off + 5, prev, t, acc1);
        lemma_gray_decode_rows(
            c,
            w,
            rows,
            orig,
            pal,
            is_pal,
            y + run,
            off + 5,
            prev,
            t,
            acc1 + concat_range(orig, y + 1, y + run),
        );
        lemma_concat_split(orig, y + 1, y + run);
        assert(acc1 + concat_range(orig, y + 1, y + run) + concat_from(orig, y + run) =~= acc
            + concat_from(orig, y));
    } else {
        let er = encode_row(rows[y], prev, t);
        let e2 = gray_encode(rows, y + 1, er.1, er.2);
        assert(e == er.0 + e2);
        assert(c.subrange(off, off + er.0.len()) =~= e.subrange(0, er.0.len() as int));
        assert(e.subrange(0, er.0.len() as int) =~= er.0);
        lemma_row_roundtrip(rows[y], prev, t, c, off);
        let next = off + er.0.len();
        assert(c.subrange(next, next + e2.len()) =~= e.subrange(er.0.len() as int, e.len() as int));
        assert(e.subrange(er.0.len() as int, e.len() as int) =~= e2);
        lemma_gray_decode_rows(c, w, rows, orig, pal, is_pal, y + 1, next, er.1, er.2, acc + orig[y]);
        assert(acc + orig[y] + concat_from(orig, y + 1) =~= acc + concat_from(orig, y));
    }
}

/// The palette lists, in increasing order, exactly the values below `n`
/// that occur.
pub proof fn lemma_values_below(pixels: Seq<u8>, n: nat)
    requires
        n <= 256,
    ensures
        values_below(pixels, n).len() <= n,
        forall|i: int, j: int|
            0 <= i < j < values_below(pixels, n).len() ==> #[trigger] values_below(pixels, n)[i]
                < #[trigger] values_below(pixels, n)[j],
        forall|i: int|
            0 <= i < values_below(pixels, n).len() ==> (#[trigger] values_below(pixels, n)[i]) < n
                && pixels.contains(values_below(pixels, n)[i]),
        forall|v: u8|
            v < n && #[trigger] pixels.contains(v) ==> exists|i: int|
                0 <= i < values_below(pixels, n).len() && values_below(pixels, n)[i] == v,
    decreases n,
{
    if n > 0 {
        lemma_values_below(pixels, (n - 1) as nat);
        let pre = values_below(pixels, (n - 1) as nat);
        let vb = values_below(pixels, n);
        assert forall|v: u8| v < n && #[trigger] pixels.contains(v) implies exists|i: int|
            0 <= i < vb.len() && vb[i] == v by {
            if v < n - 1 {
                let i = choose|i: int| 0 <= i < pre.len() && pre[i] == v;
                assert(vb[i] == v);
            } else {
                assert(vb[vb.len() - 1] == v);
            }
        }
    }
}

/// Every palette value maps to its position.
pub proof fn lemma_palette_lut(pal: Seq<u8>)
    requires
        pal.len() <= 256,
        forall|i: int, j: int| 0 <= i < j < pal.len() ==> #[trigger] pal[i] < #[trigger] pal[j],
    ensures
        palette_lut(pal).len() == 256,
        forall|i: int| 0 <= i < pal.len() ==> palette_lut(pal)[#[trigger] pal[i] as int] == i,
    decreases pal.len(),
{
    if pal.len() > 0 {
        let pre = pal.drop_last();
        assert forall|i: int, j: int| 0 <= i < j < pre.len() implies #[trigger] pre[i]
            < #[trigger] pre[j] by {
            assert(pre[i] == pal[i] && pre[j] == pal[j]);
        }
        lemma_palette_lut(pre);
        assert forall|i: int| 0 <= i < pal.len() implies palette_lut(pal)[#[trigger] pal[i] as int]
            == i by {
            let n = pal.len();
            if i < n - 1 {
                assert(pal[i] < pal[n - 1]);
                assert(pre[i] == pal[i]);
                assert(palette_lut(pal)[pal[i] as int] == palette_lut(pre)[pre[i] as int]);
            } else {
                assert(palette_lut(pal)[pal[n - 1] as int] == (n - 1) as u8);
            }
        }
    }
}

/// The header fields of an image stream read back.
proof fn lemma_image_header(width: u32, height: u32, ch: u8, rest: Seq<u8>)
    ensures
        ({
            let c = image_header(width, height, ch) + rest;
            &&& image_header(width, height, ch).len() == 13
            &&& c.len() >= 13
            &&& c.take(4) == IMAGE_MAGIC@
            &&& u32_at(c, 4) as u32 == width
            &&& u32_at(c, 8) as u32 == height
            &&& c[12] == ch
            &&& c.subrange(13, c.len() as int) == rest
        }),
{
    let hd = image_header(width, height, ch);
    let c = hd + rest;
    lemma_le_bytes_len(width as nat, 4);
    lemma_le_bytes_len(height as nat, 4);
    lemma_pow256_values();
    assert(hd.len() == 13);
    assert(c.take(4) =~= IMAGE_MAGIC@);
    assert(c.subrange(4, 8) =~= le_bytes(width as nat, 4));
    assert(c.subrange(8, 12) =~= le_bytes(height as nat, 4));
    lemma_le_bytes_roundtrip(width as nat, 4);
    lemma_le_bytes_roundtrip(height as nat, 4);
    assert(c.subrange(13, c.len() as int) =~= rest);
}

/// Every row of an image `w` pixels wide has `w` pixels, all of them pixels
/// of the image.
proof fn lemma_rows_of(pixels: Seq<u8>, w: nat, h: nat)
    requires
        pixels.len() == w * h,
    ensures
        forall|j: int|
            0 <= j < h ==> (#[trigger] row_at(pixels, w, j)).len() == w && forall|i: int|
                0 <= i < w ==> pixels.contains(row_at(pixels, w, j)[i]),
{
    assert forall|j: int| 0 <= j < h implies (#[trigger] row_at(pixels, w, j)).len() == w
        && forall|i: int| 0 <= i < w ==> pixels.contains(row_at(pixels, w, j)[i]) by {
        assert(j * w + w <= w * h && 0 <= j * w) by (nonlinear_arith)
            requires
                0 <= j < h,
        ;
        assert forall|i: int| 0 <= i < w implies pixels.contains(row_at(pixels, w, j)[i]) by {
            assert(row_at(pixels, w, j)[i] == pixels[j * w + i]);
        }
    }
}

/// Decompressing what `compress_image_grayscale` wrote gives the image back,
/// for widths from one to 65535 (any width when there are no rows).
#[verifier::rlimit(60)]
pub proof fn lemma_gray_roundtrip(width: u32, height: u32, pixels: Seq<u8>)
    requires
        pixels.len() == width as nat * height as nat,
        height == 0 || 1 <= width <= 65535,
    ensures
        gray_compressed(width, height, pixels) is Ok,
        gray_decompressed(gray_compressed(width, height, pixels)->Ok_0) == Ok::<
            (u32, u32, Seq<u8>),
            &'static str,
        >((width, height, pixels)),
        gray_compressed(width, height, pixels)->Ok_0.len() >= 13,
        gray_compressed(width, height, pixels)->Ok_0.take(4) == IMAGE_MAGIC@,
        gray_compressed(width, height, pixels)->Ok_0[12] == 1 || gray_compressed(
            width,
            height,
            pixels,
        )->Ok_0[12] == 0x81,
{
    let w = width as nat;
    let h = height as nat;
    let t0 = start_table();
    lemma_normalized_wf(skewed_raw());
    let prows = plain_rows(pixels, w, h);
    lemma_rows_of(pixels, w, h);
    lemma_concat_rows(pixels, w, h, 0);
    assert(pixels.subrange(0, (w * h) as int) =~= pixels);
    assert(Seq::<u8>::empty() + concat_from(prows, 0) =~= concat_from(prows, 0));
    let pal = gray_palette(pixels);
    let direct_e = gray_encode(prows, 0, Seq::empty(), t0);
    let direct = image_header(width, height, 1) + direct_e;
    lemma_image_header(width, height, 1, direct_e);
    assert(gray_decompressed(direct) == Ok::<(u32, u32, Seq<u8>), &'static str>(
        (width, height, pixels),
    )) by {
        assert(direct.subrange(13, 13 + direct_e.len() as int) =~= direct_e);
        if h > 0 {
            assert(rows_decode_to(prows, prows, Seq::empty(), false));
            lemma_gray_decode_rows(
                direct,
                w,
                prows,
                prows,
                Seq::empty(),
                false,
                0,
                13,
                Seq::empty(),
                t0,
                Seq::empty(),
            );
        } else {
            assert(pixels =~= Seq::<u8>::empty());
        }
    }
    if 2 <= pal.len() <= 16 {
        let lut = palette_lut(pal);
        let irows = gray_rows(pixels, w, h, lut, true);
        let ie = gray_encode(irows, 0, Seq::empty(), t0);
        let tail = seq![pal.len() as u8] + pal + ie;
        let indexed = image_header(width, height, 0x81) + tail;
        lemma_image_header(width, height, 0x81, tail);
        assert(indexed == image_header(width, height, 0x81) + seq![pal.len() as u8] + pal + ie);
        lemma_values_below(pixels, 256);
        lemma_palette_lut(pal);
        assert(gray_decompressed(indexed) == Ok::<(u32, u32, Seq<u8>), &'static str>(
            (width, height, pixels),
        )) by {
            let l = pal.len() as int;
            assert(indexed[13] == pal.len());
            assert(indexed.subrange(14, 14 + l) =~= pal);
            assert(indexed.subrange(14 + l, 14 + l + ie.len()) =~= ie);
            assert(rows_decode_to(irows, prows, pal, true)) by {
                assert forall|j: int| 0 <= j < irows.len() implies pal_apply(
                    #[trigger] irows[j],
                    pal,
                ) == Some(prows[j]) by {
                    let row = prows[j];
                    assert forall|i: int| 0 <= i < row.len() implies (#[trigger] irows[j][i] as int)
                        < pal.len() && pal[irows[j][i] as int] == row[i] by {
                        let p = row[i];
                        assert(pixels.contains(p));
                        let k = choose|k: int| 0 <= k < pal.len() && pal[k] == p;
                        assert(lut[pal[k] as int] == k);
                    }
                    assert(Seq::new(row.len(), |i: int| pal[irows[j][i] as int]) =~= row);
                }
            }
            if h > 0 {
                lemma_gray_decode_rows(
                    indexed,
                    w,
                    irows,
                    prows,
                    pal,
                    true,
                    0,
                    14 + l,
                    Seq::empty(),
                    t0,
                    Seq::empty(),
                );
            } else {
                assert(pixels =~= Seq::<u8>::empty());
            }
        }
    }
}

/// The rows of an RGB image.
pub open spec fn rgb_rows(pixels: Seq<u8>, w: nat, h: nat) -> Seq<Seq<u8>> {
    Seq::new(h, |y: int| rgb_row(pixels, w, y))
}

/// Recombining the planes of an RGB row gives the row.
proof fn lemma_interleave_planes(row: Seq<u8>, w: nat)
    requires
        row.len() == 3 * w,
    ensures
        interleave(g_plane(row, w), rg_plane(row, w), bg_plane(row, w)) == row,
{
    let g = g_plane(row, w);
    let rr = rg_plane(row, w);
    let bb = bg_plane(row, w);
    let s = interleave(g, rr, bb);
    assert forall|j: int| 0 <= j < 3 * w implies #[trigger] s[j] == row[j] by {
        vstd::arithmetic::div_mod::lemma_fundamental_div_mod(j, 3);
        let i = j / 3;
        assert(0 <= i < w);
        assert(0 <= j % 3 < 3);
        let gi = row[3 * i + 1];
        if j % 3 == 0 {
            assert(j == 3 * i);
            assert(row[3 * i].wrapping_sub(gi).wrapping_add(gi) == row[3 * i]);
        } else if j % 3 == 1 {
            assert(j == 3 * i + 1);
        } else {
            assert(j == 3 * i + 2);
            assert(row[3 * i + 2].wrapping_sub(gi).wrapping_add(gi) == row[3 * i + 2]);
        }
    }
    assert(s =~= row);
}

/// The rows of an RGB image are the rows of its bytes three per pixel.
proof fn lemma_rgb_rows(pixels: Seq<u8>, w: nat, h: nat)
    requires
        pixels.len() == w * h * 3,
    ensures
        rgb_rows(pixels, w, h) == plain_rows(pixels, 3 * w, h),
        pixels.len() == (3 * w) * h,
        forall|y: int| 0 <= y < h ==> (#[trigger] rgb_row(pixels, w, y)).len() == 3 * w,
{
    assert(pixels.len() == (3 * w) * h) by (nonlinear_arith)
        requires
            pixels.len() == w * h * 3,
    ;
    assert forall|y: int| 0 <= y < h implies (#[trigger] rgb_row(pixels, w, y)).len() == 3 * w
        && rgb_row(pixels, w, y) == row_at(pixels, 3 * w, y) by {
        assert(3 * w * y == y * (3 * w) && 3 * w * y + 3 * w <= w * h * 3 && 0 <= 3 * w * y) by (nonlinear_arith)
            requires
                0 <= y < h,
        ;
    }
    assert(rgb_rows(pixels, w, h) =~= plain_rows(pixels, 3 * w, h));
}

/// Decoding the rows of an RGB stream from row `y` gives its pixels.
#[verifier::rlimit(60)]
proof fn lemma_rgb_decode_rows(
    c: Seq<u8>,
    pixels: Seq<u8>,
    w: nat,
    h: nat,
    y: int,
    pg: Seq<u8>,
    pr: Seq<u8>,
    pb: Seq<u8>,
    tg: TableView,
    tr: TableView,
    tb: TableView,
    off: int,
    acc: Seq<u8>,
)
    requires
        1 <= w <= 65535,
        pixels.len() == w * h * 3,
        0 <= y <= h,
        pg.len() == 0 || pg.len() == w,
        pr.len() == 0 || pr.len() == w,
        pb.len() == 0 || pb.len() == w,
        tg.wf(),
        tr.wf(),
        tb.wf(),
        0 <= off,
        off + rgb_encode(pixels, w, h, y, pg, pr, pb, tg, tr, tb).len() <= c.len(),
        c.subrange(off, off + rgb_encode(pixels, w, h, y, pg, pr, pb, tg, tr, tb).len())
            == rgb_encode(pixels, w, h, y, pg, pr, pb, tg, tr, tb),
    ensures
        rgb_decode(c, w, (h - y) as nat, off, pg, pr, pb, tg, tr, tb, acc) == Ok::<
            Seq<u8>,
            &'static str,
        >(acc + concat_from(rgb_rows(pixels, w, h), y)),
    decreases h - y,
{
    reveal(rgb_decode);
    let e = rgb_encode(pixels, w, h, y, pg, pr, pb, tg, tr, tb);
    if y == h {
        reveal(rgb_encode);
        assert(acc + Seq::<u8>::empty() =~= acc);
    } else {
        lemma_rgb_encode_step(pixels, w, h, y, pg, pr, pb, tg, tr, tb);
        lemma_rgb_rows(pixels, w, h);
        let row = rgb_row(pixels, w, y);
        let g = g_plane(row, w);
        let rr = rg_plane(row, w);
        let bb = bg_plane(row, w);
        let eg = encode_row(g, pg, tg);
        let er = encode_row(rr, pr, tr);
        let eb = encode_row(bb, pb, tb);
        let e2 = rgb_encode(pixels, w, h, y + 1, eg.1, er.1, eb.1, eg.2, er.2, eb.2);
        assert(e == eg.0 + er.0 + eb.0 + e2);
        let l1 = eg.0.len() as int;
        let l2 = er.0.len() as int;
        let l3 = eb.0.len() as int;
        assert(c.subrange(off, off + l1) =~= e.subrange(0, l1));
        assert(e.subrange(0, l1) =~= eg.0);
        lemma_row_roundtrip(g, pg, tg, c, off);
        assert(c.subrange(off + l1, off + l1 + l2) =~= e.subrange(l1, l1 + l2));
        assert(e.subrange(l1, l1 + l2) =~= er.0);
        lemma_row_roundtrip(rr, pr, tr, c, off + l1);
        assert(c.subrange(off + l1 + l2, off + l1 + l2 + l3) =~= e.subrange(l1 + l2, l1 + l2 + l3));
        assert(e.subrange(l1 + l2, l1 + l2 + l3) =~= eb.0);
        lemma_row_roundtrip(bb, pb, tb, c, off + l1 + l2);
        let next = off + l1 + l2 + l3;
        assert(c.subrange(next, next + e2.len()) =~= e.subrange(l1 + l2 + l3, e.len() as int));
        assert(e.subrange(l1 + l2 + l3, e.len() as int) =~= e2);
        lemma_interleave_planes(row, w);
        lemma_rgb_decode_rows(
            c,
            pixels,
            w,
            h,
            y + 1,
            eg.1,
            er.1,
            eb.1,
            eg.2,
            er.2,
            eb.2,
            next,
            acc + row,
        );
        assert(acc + row + concat_from(rgb_rows(pixels, w, h), y + 1) =~= acc + concat_from(
            rgb_rows(pixels, w, h),
            y,
        ));
    }
}

/// Decompressing what `compress_image_rgb` wrote gives the image back, for
/// widths from one to 65535 (any width when there are no rows).
pub proof fn lemma_rgb_roundtrip(width: u32, height: u32, pixels: Seq<u8>)
    requires
        pixels.len() == width as nat * height as nat * 3,
        height == 0 || 1 <= width <= 65535,
    ensures
        rgb_compressed(width, height, pixels) is Ok,
        rgb_decompressed(rgb_compressed(width, height, pixels)->Ok_0) == Ok::<
            (u32, u32, Seq<u8>),
            &'static str,
        >((width, height, pixels)),
        rgb_compressed(width, height, pixels)->Ok_0.len() >= 13,
        rgb_compressed(width, height, pixels)->Ok_0.take(4) == IMAGE_MAGIC@,
        rgb_compressed(width, height, pixels)->Ok_0[12] == 3,
{
    let w = width as nat;
    let h = height as nat;
    let t0 = start_table();
    lemma_normalized_wf(skewed_raw());
    let e = rgb_encode(
        pixels,
        w,
        h,
        0,
        Seq::empty(),
        Seq::empty(),
        Seq::empty(),
        t0,
        t0,
        t0,
    );
    let c = image_header(width, height, 3) + e;
    lemma_image_header(width, height, 3, e);
    lemma_rgb_rows(pixels, w, h);
    lemma_concat_rows(pixels, 3 * w, h, 0);
    assert(pixels.subrange(0, (3 * w * h) as int) =~= pixels);
    if h > 0 {
        assert(c.subrange(13, 13 + e.len() as int) =~= e);
        lemma_rgb_decode_rows(
            c,
            pixels,
            w,
            h,
            0,
            Seq::empty(),
            Seq::empty(),
            Seq::empty(),
            t0,
            t0,
            t0,
            13,
            Seq::empty(),
        );
        assert(Seq::<u8>::empty() + concat_from(rgb_rows(pixels, w, h), 0) =~= pixels);
    } else {
        reveal(rgb_decode);
        assert(pixels =~= Seq::<u8>::empty());
    }
}

/// Decompressing what `compress_image` wrote gives the image back, with its
/// channel count, for one or three channels and widths from one to 65535
/// (any width when there are no rows).
pub proof fn lemma_image_roundtrip(width: u32, height: u32, channels: u8, pixels: Seq<u8>)
    requires
        channels == 1 || channels == 3,
        pixels.len() == width as nat * height as nat * channels as nat,
        height == 0 || 1 <= width <= 65535,
    ensures
        image_compressed(width, height, channels, pixels) is Ok,
        image_decompressed(image_compressed(width, height, channels, pixels)->Ok_0) == Ok::<
            (u32, u32, u8, Seq<u8>),
            &'static str,
        >((width, height, channels, pixels)),
{
    if channels == 1 {
        lemma_gray_roundtrip(width, height, pixels);
    } else {
        lemma_rgb_roundtrip(width, height, pixels);
    }
}

} // verus!
