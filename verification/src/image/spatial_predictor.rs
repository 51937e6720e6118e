//! 2D spatial causal predictors and the residual packing of image rows.

use vstd::prelude::*;
use vstd::arithmetic::power2::{pow2, lemma2_to64, lemma_pow2_adds};
use crate::le_bytes::bytes_value;
use crate::stream::bitstream::{BitWriter, BitReader, packed, total_bits, lemma_packed_append,
    read_val, read_pos, lemma_read_packed_field};

verus! {

/// How a row of pixels is predicted; its header byte is its position in
/// this list.
#[derive(Copy, Clone, Debug, PartialEq, Eq, Structural)]
pub enum FilterType {
    NoFilter,
    Sub,
    Up,
    Average,
    Paeth,
    Plane,
    Med,
    RepeatPrev,
    Constant,
    Raw,
}

pub open spec fn filter_code(f: FilterType) -> u8 {
    match f {
        FilterType::NoFilter => 0,
        FilterType::Sub => 1,
        FilterType::Up => 2,
        FilterType::Average => 3,
        FilterType::Paeth => 4,
        FilterType::Plane => 5,
        FilterType::Med => 6,
        FilterType::RepeatPrev => 7,
        FilterType::Constant => 8,
        FilterType::Raw => 9,
    }
}

impl FilterType {
    pub fn from_u8(v: u8) -> (r: Option<Self>)
        ensures
            r is Some <==> v <= 9,
            r matches Some(f) ==> filter_code(f) == v,
    {
        match v {
            0 => Some(Self::NoFilter),
            1 => Some(Self::Sub),
            2 => Some(Self::Up),
            3 => Some(Self::Average),
            4 => Some(Self::Paeth),
            5 => Some(Self::Plane),
            6 => Some(Self::Med),
            7 => Some(Self::RepeatPrev),
            8 => Some(Self::Constant),
            9 => Some(Self::Raw),
            _ => None,
        }
    }

    /// The header byte of the filter.
    pub(crate) fn code(self) -> (c: u8)
        ensures
            c == filter_code(self),
    {
        match self {
            Self::NoFilter => 0,
            Self::Sub => 1,
            Self::Up => 2,
            Self::Average => 3,
            Self::Paeth => 4,
            Self::Plane => 5,
            Self::Med => 6,
            Self::RepeatPrev => 7,
            Self::Constant => 8,
            Self::Raw => 9,
        }
    }
}

/// Decoding a filter's header byte gives the filter back.
pub proof fn lemma_filter_code_injective(f: FilterType, g: FilterType)
    ensures
        filter_code(f) == filter_code(g) ==> f == g,
{
}

pub open spec fn abs_int(x: int) -> int {
    if x < 0 {
        -x
    } else {
        x
    }
}

/// The low eight bits of an integer.
pub open spec fn wrap8(x: int) -> u8 {
    (x % 256) as u8
}

/// Paeth: of left, above and above-left, the one closest to
/// `left + above - above_left`, preferring left, then above.
pub open spec fn paeth_spec(a: u8, b: u8, c: u8) -> u8 {
    let p = a + b - c;
    let pa = abs_int(p - a);
    let pb = abs_int(p - b);
    let pc = abs_int(p - c);
    if pa <= pb && pa <= pc {
        a
    } else if pb <= pc {
        b
    } else {
        c
    }
}

/// MED (JPEG-LS): the smaller of left and above when above-left is at least
/// their maximum, the larger when it is at most their minimum, else the
/// plane prediction.
pub open spec fn med_spec(a: u8, b: u8, c: u8) -> u8 {
    let lo = if a <= b {
        a
    } else {
        b
    };
    let hi = if a <= b {
        b
    } else {
        a
    };
    if c >= hi {
        lo
    } else if c <= lo {
        hi
    } else {
        wrap8(a + b - c)
    }
}

/// Plane: `left + above - above_left`, wrapped to eight bits.
pub open spec fn plane_spec(a: u8, b: u8, c: u8) -> u8 {
    wrap8(a + b - c)
}

#[inline]
pub fn paeth_predict(a: u8, b: u8, c: u8) -> (r: u8)
    ensures
        r == paeth_spec(a, b, c),
{
    let a32 = a as i32;
    let b32 = b as i32;
    let c32 = c as i32;
    let p = a32 + b32 - c32;
    let da = p - a32;
    let db = p - b32;
    let dc = p - c32;
    let pa = if da < 0 {
        -da
    } else {
        da
    };
    let pb = if db < 0 {
        -db
    } else {
        db
    };
    let pc = if dc < 0 {
        -dc
    } else {
        dc
    };
    if pa <= pb && pa <= pc {
        a
    } else if pb <= pc {
        b
    } else {
        c
    }
}

/// The low eight bits of a small signed value.
fn low_byte(x: i32) -> (r: u8)
    requires
        -255 <= x <= 510,
    ensures
        r == wrap8(x as int),
{
    if x < 0 {
        (x + 256) as u8
    } else if x >= 256 {
        (x - 256) as u8
    } else {
        x as u8
    }
}

#[inline]
pub fn med_predict(a: u8, b: u8, c: u8) -> (r: u8)
    ensures
        r == med_spec(a, b, c),
{
    let min_ab = if a <= b {
        a
    } else {
        b
    };
    let max_ab = if a <= b {
        b
    } else {
        a
    };
    if c >= max_ab {
        min_ab
    } else if c <= min_ab {
        max_ab
    } else {
        low_byte(a as i32 + b as i32 - c as i32)
    }
}

#[inline]
pub fn plane_predict(a: u8, b: u8, c: u8) -> (r: u8)
    ensures
        r == plane_spec(a, b, c),
{
    low_byte(a as i32 + b as i32 - c as i32)
}

/// The prediction of `filter` from the left, above and above-left pixels.
pub open spec fn predict(filter: FilterType, left: u8, above: u8, above_left: u8) -> u8 {
    match filter {
        FilterType::NoFilter => 0,
        FilterType::Sub => left,
        FilterType::Up => above,
        FilterType::Average => ((left + above) / 2) as u8,
        FilterType::Paeth => paeth_spec(left, above, above_left),
        FilterType::Plane => plane_spec(left, above, above_left),
        FilterType::Med => med_spec(left, above, above_left),
        _ => 0,
    }
}

/// The pixel above position `i` (zero on the first row).
pub open spec fn above_at(prev: Seq<u8>, i: int) -> u8 {
    if prev.len() > 0 {
        prev[i]
    } else {
        0
    }
}

/// The pixel above and to the left of position `i` (zero on the first row
/// and column).
pub open spec fn above_left_at(prev: Seq<u8>, i: int) -> u8 {
    if i > 0 && prev.len() > 0 {
        prev[i - 1]
    } else {
        0
    }
}

/// The prediction at position `i` of the row `x` under the row `prev`.
pub open spec fn pred_in(x: Seq<u8>, prev: Seq<u8>, filter: FilterType, i: int) -> u8 {
    predict(
        filter,
        if i > 0 {
            x[i - 1]
        } else {
            0
        },
        above_at(prev, i),
        above_left_at(prev, i),
    )
}

/// The residuals of a row: each pixel minus its prediction, wrapped.
pub open spec fn filtered(curr: Seq<u8>, prev: Seq<u8>, filter: FilterType) -> Seq<u8> {
    Seq::new(curr.len(), |i: int| curr[i].wrapping_sub(pred_in(curr, prev, filter, i)))
}

/// The row rebuilt from its residuals, each pixel predicted from the pixels
/// rebuilt before it.
pub open spec fn unfiltered(res: Seq<u8>, prev: Seq<u8>, filter: FilterType) -> Seq<u8>
    decreases res.len(),
{
    if res.len() == 0 {
        Seq::empty()
    } else {
        let pre = unfiltered(res.drop_last(), prev, filter);
        pre.push(res.last().wrapping_add(pred_in(pre, prev, filter, res.len() - 1)))
    }
}

pub proof fn lemma_unfiltered_len(res: Seq<u8>, prev: Seq<u8>, filter: FilterType)
    ensures
        unfiltered(res, prev, filter).len() == res.len(),
    decreases res.len(),
{
    if res.len() > 0 {
        lemma_unfiltered_len(res.drop_last(), prev, filter);
    }
}

/// Rebuilding a row from its residuals gives the row back.
pub proof fn lemma_filter_roundtrip(curr: Seq<u8>, prev: Seq<u8>, filter: FilterType)
    ensures
        unfiltered(filtered(curr, prev, filter), prev, filter) == curr,
    decreases curr.len(),
{
    if curr.len() > 0 {
        let pre = curr.drop_last();
        let res = filtered(curr, prev, filter);
        assert(res.drop_last() =~= filtered(pre, prev, filter));
        lemma_filter_roundtrip(pre, prev, filter);
        let i = curr.len() - 1;
        assert(pred_in(pre, prev, filter, i) == pred_in(curr, prev, filter, i));
        let p = pred_in(curr, prev, filter, i);
        let c = curr[i];
        assert(c.wrapping_sub(p).wrapping_add(p) == c);
        assert(pre.push(c) =~= curr);
    }
}

/// The prediction at position `i` from the actual left pixel.
fn pred_at(left: u8, prev: &[u8], filter: FilterType, i: usize) -> (r: u8)
    requires
        prev@.len() == 0 || i < prev@.len(),
    ensures
        r == predict(filter, left, above_at(prev@, i as int), above_left_at(prev@, i as int)),
{
    let above: u8 = if prev.len() > 0 {
        prev[i]
    } else {
        0
    };
    let above_left: u8 = if i > 0 && prev.len() > 0 {
        prev[i - 1]
    } else {
        0
    };
    match filter {
        FilterType::NoFilter => 0,
        FilterType::Sub => left,
        FilterType::Up => above,
        FilterType::Average => ((left as u16 + above as u16) / 2) as u8,
        FilterType::Paeth => paeth_predict(left, above, above_left),
        FilterType::Plane => plane_predict(left, above, above_left),
        FilterType::Med => med_predict(left, above, above_left),
        _ => 0,
    }
}

/// Filter a row of pixels given the previous row and chosen filter type.
pub fn filter_row(curr: &[u8], prev: &[u8], filter: FilterType, out: &mut Vec<u8>)
    requires
        prev@.len() == 0 || prev@.len() >= curr@.len(),
    ensures
        final(out)@ == old(out)@ + filtered(curr@, prev@, filter),
{
    let mut left: u8 = 0;
    let mut i: usize = 0;
    while i < curr.len()
        invariant
            i <= curr@.len(),
            prev@.len() == 0 || prev@.len() >= curr@.len(),
            left == if i > 0 {
                curr@[i - 1]
            } else {
                0
            },
            out@ == old(out)@ + filtered(curr@, prev@, filter).take(i as int),
        decreases curr@.len() - i,
    {
        let pred = pred_at(left, prev, filter, i);
        let res = curr[i].wrapping_sub(pred);
        out.push(res);
        proof {
            assert(filtered(curr@, prev@, filter).take(i + 1) =~= filtered(curr@, prev@, filter).take(
                i as int,
            ).push(res));
        }
        left = curr[i];
        i = i + 1;
    }
    proof {
        assert(filtered(curr@, prev@, filter).take(curr@.len() as int) =~= filtered(
            curr@,
            prev@,
            filter,
        ));
    }
}

/// Invert filtering on a row of residuals to reconstruct pixel values.
pub fn unfilter_row(residuals: &[u8], prev: &[u8], filter: FilterType, out: &mut Vec<u8>)
    requires
        prev@.len() == 0 || prev@.len() >= residuals@.len(),
    ensures
        final(out)@ == old(out)@ + unfiltered(residuals@, prev@, filter),
{
    let mut left: u8 = 0;
    let mut i: usize = 0;
    let ghost start = out@;
    proof {
        assert(residuals@.take(0) =~= Seq::<u8>::empty());
        assert(out@ =~= start + unfiltered(residuals@.take(0), prev@, filter));
    }
    while i < residuals.len()
        invariant
            i <= residuals@.len(),
            prev@.len() == 0 || prev@.len() >= residuals@.len(),
            out@ == start + unfiltered(residuals@.take(i as int), prev@, filter),
            unfiltered(residuals@.take(i as int), prev@, filter).len() == i,
            left == if i > 0 {
                unfiltered(residuals@.take(i as int), prev@, filter)[i - 1]
            } else {
                0
            },
        decreases residuals@.len() - i,
    {
        let ghost pre = unfiltered(residuals@.take(i as int), prev@, filter);
        let pred = pred_at(left, prev, filter, i);
        let val = residuals[i].wrapping_add(pred);
        out.push(val);
        proof {
            let r1 = residuals@.take(i + 1);
            assert(r1.drop_last() =~= residuals@.take(i as int));
            assert(pred == pred_in(pre, prev@, filter, i as int));
            assert(unfiltered(r1, prev@, filter) == pre.push(val));
            assert(out@ =~= start + unfiltered(r1, prev@, filter));
        }
        left = val;
        i = i + 1;
    }
    proof {
        assert(residuals@.take(residuals@.len() as int) =~= residuals@);
    }
}

} // verus!

verus! {

/// The cost of a residual: its distance from zero, going either way round.
pub open spec fn res_cost(r: u8) -> nat {
    if r <= 128 {
        r as nat
    } else {
        (256 - r) as nat
    }
}

/// The sum of the costs of a row of residuals.
pub open spec fn row_score(s: Seq<u8>) -> nat
    decreases s.len(),
{
    if s.len() == 0 {
        0
    } else {
        row_score(s.drop_last()) + res_cost(s.last())
    }
}

/// The filters that the selector tries, in order.
pub open spec fn candidate(k: int) -> FilterType {
    if k == 0 {
        FilterType::NoFilter
    } else if k == 1 {
        FilterType::Sub
    } else if k == 2 {
        FilterType::Up
    } else if k == 3 {
        FilterType::Average
    } else if k == 4 {
        FilterType::Paeth
    } else if k == 5 {
        FilterType::Plane
    } else {
        FilterType::Med
    }
}

/// The best of the first `k` candidates and its score: a candidate wins
/// only with a strictly lower score than every one before it, and the
/// starting bar is `u32::MAX`.
pub open spec fn best_upto(curr: Seq<u8>, prev: Seq<u8>, k: nat) -> (FilterType, int)
    decreases k,
{
    if k == 0 {
        (FilterType::NoFilter, u32::MAX as int)
    } else {
        let b = best_upto(curr, prev, (k - 1) as nat);
        let f = candidate(k - 1);
        let sc = row_score(filtered(curr, prev, f)) as int;
        if sc < b.1 {
            (f, sc)
        } else {
            b
        }
    }
}

/// The filter that the selector picks for a row.
pub open spec fn best_filter(curr: Seq<u8>, prev: Seq<u8>) -> FilterType {
    best_upto(curr, prev, 7).0
}

pub proof fn lemma_row_score_bound(s: Seq<u8>)
    ensures
        row_score(s) <= 128 * s.len(),
    decreases s.len(),
{
    if s.len() > 0 {
        lemma_row_score_bound(s.drop_last());
    }
}

fn candidate_at(k: usize) -> (f: FilterType)
    requires
        k < 7,
    ensures
        f == candidate(k as int),
{
    if k == 0 {
        FilterType::NoFilter
    } else if k == 1 {
        FilterType::Sub
    } else if k == 2 {
        FilterType::Up
    } else if k == 3 {
        FilterType::Average
    } else if k == 4 {
        FilterType::Paeth
    } else if k == 5 {
        FilterType::Plane
    } else {
        FilterType::Med
    }
}

/// The score of a row of residuals.
fn score_of(s: &[u8]) -> (r: u128)
    ensures
        r as nat == row_score(s@),
{
    let mut acc: u128 = 0;
    let mut i: usize = 0;
    proof {
        assert(s@.take(0).len() == 0);
    }
    while i < s.len()
        invariant
            i <= s@.len(),
            acc as nat == row_score(s@.take(i as int)),
            acc <= 128 * i,
        decreases s@.len() - i,
    {
        let r = s[i];
        let c: u128 = if r <= 128 {
            r as u128
        } else {
            256 - r as u128
        };
        proof {
            assert(s@.take(i + 1).drop_last() =~= s@.take(i as int));
        }
        acc = acc + c;
        i = i + 1;
    }
    proof {
        assert(s@.take(s@.len() as int) =~= s@);
    }
    acc
}

/// Adaptively select best filter type for a row by minimizing residual sum.
pub fn select_best_filter(curr: &[u8], prev: &[u8]) -> (f: FilterType)
    requires
        prev@.len() == 0 || prev@.len() >= curr@.len(),
    ensures
        f == best_filter(curr@, prev@),
{
    let mut best_filter: FilterType = FilterType::NoFilter;
    let mut best_score: u128 = 0xffff_ffffu128;
    let mut k: usize = 0;
    while k < 7
        invariant
            k <= 7,
            prev@.len() == 0 || prev@.len() >= curr@.len(),
            (best_filter, best_score as int) == best_upto(curr@, prev@, k as nat),
        decreases 7 - k,
    {
        let f = candidate_at(k);
        let mut temp: Vec<u8> = Vec::new();
        filter_row(curr, prev, f, &mut temp);
        proof {
            assert(temp@ =~= filtered(curr@, prev@, f));
        }
        let score = score_of(temp.as_slice());
        if score < best_score {
            best_score = score;
            best_filter = f;
        }
        k = k + 1;
    }
    best_filter
}

// ---------------------------------------------------------------------------
// Packing residuals into symbols and extra bits.

/// The number of zeros that start `res`, at most `cap`.
pub open spec fn leading_zeros(res: Seq<u8>, cap: nat) -> nat
    decreases cap,
{
    if cap == 0 || res.len() == 0 || res[0] != 0 {
        0
    } else {
        1 + leading_zeros(res.drop_first(), (cap - 1) as nat)
    }
}

pub proof fn lemma_leading_zeros(res: Seq<u8>, cap: nat)
    ensures
        leading_zeros(res, cap) <= cap,
        leading_zeros(res, cap) <= res.len(),
        cap > 0 && res.len() > 0 && res[0] == 0 ==> leading_zeros(res, cap) >= 1,
        forall|i: int| 0 <= i < leading_zeros(res, cap) ==> res[i] == 0,
        leading_zeros(res, cap) < cap && leading_zeros(res, cap) < res.len() ==> res[leading_zeros(
            res,
            cap,
        ) as int] != 0,
    decreases cap,
{
    if cap > 0 && res.len() > 0 && res[0] == 0 {
        lemma_leading_zeros(res.drop_first(), (cap - 1) as nat);
        let n = leading_zeros(res, cap);
        assert forall|i: int| 0 <= i < n implies res[i] == 0 by {
            if i > 0 {
                assert(res[i] == res.drop_first()[i - 1]);
            }
        }
    }
}

/// The zeros that start `res`, as one run of at most 65.
pub open spec fn zero_run(res: Seq<u8>) -> nat {
    leading_zeros(res, 65)
}

/// One symbol of a packed row: the symbol, its extra-bits field, and the
/// number of residuals it stands for.
pub type PackToken = (u8, (u64, u8), nat);

/// The symbols of a row of residuals, front to back: a run of two to 65
/// zeros is `190 + run`, a single zero is `0`, a residual below 128 is
/// itself, and a larger one is `128 + (r - 128) / 2` with the low bit of
/// `r - 128` as one extra bit.
pub open spec fn pack_tokens(res: Seq<u8>) -> Seq<PackToken>
    decreases res.len(),
{
    if res.len() == 0 {
        Seq::empty()
    } else if res[0] == 0 {
        proof {
            lemma_leading_zeros(res, 65);
        }
        let run = zero_run(res);
        let sym: u8 = if run == 1 {
            0
        } else {
            (192 + run - 2) as u8
        };
        seq![(sym, (0u64, 0u8), run)] + pack_tokens(res.skip(run as int))
    } else if res[0] < 128 {
        seq![(res[0], (0u64, 0u8), 1nat)] + pack_tokens(res.skip(1))
    } else {
        seq![
            ((128 + (res[0] - 128) / 2) as u8, (((res[0] - 128) % 2) as u64, 1u8), 1nat),
        ] + pack_tokens(res.skip(1))
    }
}

pub open spec fn pack_symbols(res: Seq<u8>) -> Seq<u8> {
    pack_tokens(res).map_values(|t: PackToken| t.0)
}

pub open spec fn pack_fields(res: Seq<u8>) -> Seq<(u64, u8)> {
    pack_tokens(res).map_values(|t: PackToken| t.1)
}

} // verus!

verus! {

/// The run that the zero-run loop counts is `zero_run`.
proof fn lemma_zero_run_is(s: Seq<u8>, r: nat, cap: nat)
    requires
        r <= cap,
        r <= s.len(),
        forall|j: int| 0 <= j < r ==> s[j] == 0,
        r == cap || r == s.len() || s[r as int] != 0,
    ensures
        leading_zeros(s, cap) == r,
    decreases r,
{
    if r > 0 {
        assert forall|j: int| 0 <= j < r - 1 implies s.drop_first()[j] == 0 by {
            assert(s.drop_first()[j] == s[j + 1]);
        }
        if r < s.len() && r < cap {
            assert(s.drop_first()[r - 1] == s[r as int]);
        }
        lemma_zero_run_is(s.drop_first(), (r - 1) as nat, (cap - 1) as nat);
    }
}

/// Unfolding `pack_tokens` at position `i`.
proof fn lemma_pack_step(res: Seq<u8>, i: int)
    requires
        0 <= i < res.len(),
    ensures
        ({
            let s = res.skip(i);
            let t = pack_tokens(s)[0];
            &&& 1 <= t.2 <= s.len()
            &&& pack_tokens(s) == seq![t] + pack_tokens(res.skip(i + t.2))
            &&& pack_symbols(s) == seq![t.0] + pack_symbols(res.skip(i + t.2))
            &&& pack_fields(s) == seq![t.1] + pack_fields(res.skip(i + t.2))
        }),
{
    let s = res.skip(i);
    lemma_leading_zeros(s, 65);
    let t = pack_tokens(s)[0];
    let len: int = if s[0] == 0 {
        zero_run(s) as int
    } else {
        1
    };
    assert(s.skip(len) =~= res.skip(i + len));
    assert(pack_tokens(s) == seq![t] + pack_tokens(res.skip(i + len)));
    assert(t.2 == len);
    assert(pack_symbols(s) =~= seq![t.0] + pack_symbols(res.skip(i + len)));
    assert(pack_fields(s) =~= seq![t.1] + pack_fields(res.skip(i + len)));
}

/// Bookkeeping of the bit writer for one more field in front of the rest.
proof fn lemma_field_step(v: nat, bl: nat, f: (u64, u8), rest: Seq<(u64, u8)>)
    ensures
        v + (f.0 as nat % pow2(f.1 as nat)) * pow2(bl) + pow2((bl + f.1) as nat) * packed(rest) == v + pow2(
            bl,
        ) * packed(seq![f] + rest),
        total_bits(seq![f] + rest) == f.1 + total_bits(rest),
{
    lemma_packed_append(seq![f], rest);
    let one = seq![f];
    assert(one.drop_last() =~= Seq::<(u64, u8)>::empty());
    assert(packed(one) == f.0 as nat % pow2(f.1 as nat)) by {
        lemma2_to64();
        assert(one.last() == f);
        assert(total_bits(one.drop_last()) == 0);
        assert(packed(one.drop_last()) == 0);
        let x = f.0 as nat % pow2(f.1 as nat);
        assert(x * pow2(0) == x) by (nonlinear_arith)
            requires
                pow2(0) == 1,
        ;
    }
    lemma_pow2_adds(bl, f.1 as nat);
    let e = f.0 as nat % pow2(f.1 as nat);
    let pr = packed(rest);
    assert(pow2(bl) * (e + pow2(f.1 as nat) * pr) == e * pow2(bl) + (pow2(bl) * pow2(f.1 as nat))
        * pr) by (nonlinear_arith);
}

/// Pack 8-bit residuals into symbols and extra bits.
/// Symbols:
///   0: single zero residual
///   1..127: small literal residuals 1..127 (0 extra bits)
///   128..191: large residuals 128..255 (prefix 128 + ((r - 128) >> 1), 1 extra bit)
///   192..255: runs of 2..65 zeros (192 -> 2 zeros, 255 -> 65 zeros, 0 extra bits)
pub fn pack_8bit_residuals(residuals: &[u8], symbols_out: &mut Vec<u8>, writer: &mut BitWriter)
    requires
        old(writer).wf(),
    ensures
        final(writer).wf(),
        final(symbols_out)@ == old(symbols_out)@ + pack_symbols(residuals@),
        final(writer).value() == old(writer).value() + pow2(old(writer).bit_len()) * packed(
            pack_fields(residuals@),
        ),
        final(writer).bit_len() == old(writer).bit_len() + total_bits(pack_fields(residuals@)),
{
    let ghost res = residuals@;
    let ghost s0 = symbols_out@;
    let ghost v0 = writer.value();
    let ghost b0 = writer.bit_len();
    let n = residuals.len();
    let mut i: usize = 0;
    proof {
        assert(res.skip(0) =~= res);
        assert(s0 + pack_symbols(res) =~= symbols_out@ + pack_symbols(res.skip(0)));
    }
    while i < n
        invariant
            i <= n == res.len(),
            residuals@ == res,
            writer.wf(),
            s0 + pack_symbols(res) == symbols_out@ + pack_symbols(res.skip(i as int)),
            v0 + pow2(b0) * packed(pack_fields(res)) == writer.value() + pow2(writer.bit_len())
                * packed(pack_fields(res.skip(i as int))),
            b0 + total_bits(pack_fields(res)) == writer.bit_len() + total_bits(
                pack_fields(res.skip(i as int)),
            ),
        decreases n - i,
    {
        let ghost i0 = i as int;
        let ghost sk = res.skip(i0);
        let ghost t = pack_tokens(sk)[0];
        let ghost rest = pack_fields(res.skip(i0 + t.2));
        let ghost syms0 = symbols_out@;
        let ghost v1 = writer.value();
        let ghost bl1 = writer.bit_len();
        proof {
            lemma_pack_step(res, i0);
            lemma_leading_zeros(sk, 65);
        }
        let r = residuals[i];
        if r == 0 {
            let mut run: usize = 0;
            while i < n && residuals[i] == 0 && run < 65
                invariant
                    i0 <= i <= n == res.len(),
                    residuals@ == res,
                    i == i0 + run,
                    run <= 65,
                    sk == res.skip(i0),
                    0 <= i0,
                    sk.len() == n - i0,
                    forall|j: int| 0 <= j < run ==> sk[j] == 0,
                decreases n - i,
            {
                assert(sk[run as int] == res[i as int]);
                run = run + 1;
                i = i + 1;
            }
            proof {
                lemma_zero_run_is(sk, run as nat, 65);
            }
            if run == 1 {
                symbols_out.push(0);
            } else {
                symbols_out.push((192 + (run - 2)) as u8);
            }
        } else {
            if r < 128 {
                symbols_out.push(r);
            } else {
                assert((r - 128) as u8 >> 1 <= 63) by (bit_vector)
                    requires
                        r >= 128,
                ;
                let sym = 128 + ((r - 128) >> 1);
                proof {
                    let d = (r - 128) as u8;
                    assert(d >> 1 == d / 2) by (bit_vector);
                }
                symbols_out.push(sym);
                let bit: u64 = ((r - 128) & 1) as u64;
                proof {
                    let d = (r - 128) as u8;
                    assert(d & 1 == d % 2) by (bit_vector);
                }
                writer.write_bits(bit, 1);
            }
            i = i + 1;
        }
        proof {
            assert(i == i0 + t.2);
            lemma_field_step(v1, bl1, t.1, rest);
            let e = t.1.0 as nat % pow2(t.1.1 as nat);
            if t.1.1 == 0 {
                assert(t.1.0 as nat % pow2(0) == 0) by {
                    lemma2_to64();
                }
                assert(e * pow2(bl1) == 0) by (nonlinear_arith)
                    requires
                        e == 0,
                ;
            }
            assert(writer.value() == v1 + e * pow2(bl1));
            assert(writer.bit_len() == bl1 + t.1.1);
            assert(writer.value() + pow2(writer.bit_len()) * packed(rest) == v1 + pow2(bl1) * packed(
                pack_fields(sk),
            ));
            assert(syms0 + pack_symbols(sk) =~= symbols_out@ + pack_symbols(res.skip(i as int)));
        }
    }
    proof {
        assert(res.skip(n as int) =~= Seq::<u8>::empty());
        assert(pack_tokens(Seq::<u8>::empty()) =~= Seq::<PackToken>::empty());
        assert(pack_symbols(res.skip(n as int)) =~= Seq::<u8>::empty());
        assert(pack_fields(res.skip(n as int)) =~= Seq::<(u64, u8)>::empty());
        assert(symbols_out@ + Seq::<u8>::empty() =~= symbols_out@);
        assert(packed(Seq::<(u64, u8)>::empty()) == 0);
        assert(pow2(writer.bit_len()) * 0 == 0) by (nonlinear_arith);
    }
}

} // verus!

verus! {

/// Where unpacking stands: the residuals so far, the bit position in the
/// extra bits, and the error that stopped it, if any.
pub ghost struct Unpacked {
    pub out: Seq<u8>,
    pub pos: nat,
    pub err: Option<&'static str>,
}

/// Unpacking `syms` after `out0`, reading extra bits of `data` from bit `p`:
/// a zero run that would pass `target` residuals stops it.
pub open spec fn unpack_state(syms: Seq<u8>, data: Seq<u8>, p: nat, target: nat, out0: Seq<u8>) -> Unpacked
    decreases syms.len(),
{
    if syms.len() == 0 {
        Unpacked { out: out0, pos: p, err: None }
    } else {
        let st = unpack_state(syms.drop_last(), data, p, target, out0);
        let s = syms.last();
        if st.err is Some {
            st
        } else if s == 0 {
            Unpacked { out: st.out.push(0u8), ..st }
        } else if s >= 192 {
            let run = (s - 190) as nat;
            if st.out.len() + run > target {
                Unpacked { err: Some("Zero-run length exceeds target pixel count"), ..st }
            } else {
                Unpacked { out: st.out + Seq::new(run, |i: int| 0u8), ..st }
            }
        } else if s < 128 {
            Unpacked { out: st.out.push(s), ..st }
        } else {
            Unpacked {
                out: st.out.push((128 + 2 * (s - 128) + read_val(data, st.pos, 1)) as u8),
                pos: read_pos(data, st.pos, 1),
                err: None,
            }
        }
    }
}

/// The outcome of unpacking: the first error, or a count other than
/// `target`, or success.
pub open spec fn unpack_outcome(syms: Seq<u8>, data: Seq<u8>, p: nat, target: nat, out0: Seq<u8>) -> Result<
    (),
    &'static str,
> {
    let st = unpack_state(syms, data, p, target, out0);
    match st.err {
        Some(e) => Err(e),
        None => if st.out.len() != target {
            Err("Decoded image residual count does not match expected row width")
        } else {
            Ok(())
        },
    }
}

/// Once unpacking stopped on an error, later symbols change nothing.
proof fn lemma_unpack_stopped(syms: Seq<u8>, k: int, data: Seq<u8>, p: nat, target: nat, out0: Seq<u8>)
    requires
        0 <= k <= syms.len(),
        unpack_state(syms.take(k), data, p, target, out0).err is Some,
    ensures
        unpack_state(syms, data, p, target, out0) == unpack_state(syms.take(k), data, p, target, out0),
    decreases syms.len() - k,
{
    if k < syms.len() {
        assert(syms.take(k + 1).drop_last() =~= syms.take(k));
        lemma_unpack_stopped(syms, k + 1, data, p, target, out0);
    } else {
        assert(syms.take(k) =~= syms);
    }
}

/// Unpack 8-bit residuals from symbols and extra bits.
pub fn unpack_8bit_residuals(
    symbols: &[u8],
    reader: &mut BitReader,
    target_count: usize,
    residuals_out: &mut Vec<u8>,
) -> (r: Result<(), &'static str>)
    requires
        old(reader).wf(),
    ensures
        final(reader).wf(),
        final(reader).data() == old(reader).data(),
        final(residuals_out)@ == unpack_state(
            symbols@,
            old(reader).data(),
            old(reader).bit_pos(),
            target_count as nat,
            old(residuals_out)@,
        ).out,
        final(reader).bit_pos() == unpack_state(
            symbols@,
            old(reader).data(),
            old(reader).bit_pos(),
            target_count as nat,
            old(residuals_out)@,
        ).pos,
        r == unpack_outcome(
            symbols@,
            old(reader).data(),
            old(reader).bit_pos(),
            target_count as nat,
            old(residuals_out)@,
        ),
{
    let ghost data = reader.data();
    let ghost p0 = reader.bit_pos();
    let ghost o0 = residuals_out@;
    let ghost tc = target_count as nat;
    let mut i: usize = 0;
    proof {
        assert(symbols@.take(0) =~= Seq::<u8>::empty());
    }
    while i < symbols.len()
        invariant
            i <= symbols@.len(),
            reader.wf(),
            reader.data() == data,
            data == old(reader).data(),
            p0 == old(reader).bit_pos(),
            o0 == old(residuals_out)@,
            tc == target_count as nat,
            unpack_state(symbols@.take(i as int), data, p0, tc, o0) == (Unpacked {
                out: residuals_out@,
                pos: reader.bit_pos(),
                err: None,
            }),
        decreases symbols@.len() - i,
    {
        let sym = symbols[i];
        proof {
            assert(symbols@.take(i + 1).drop_last() =~= symbols@.take(i as int));
            assert(symbols@.take(i + 1).last() == sym);
        }
        if sym == 0 {
            residuals_out.push(0);
        } else if sym >= 192 {
            let run: usize = (sym - 192) as usize + 2;
            if run > target_count || residuals_out.len() > target_count - run {
                proof {
                    lemma_unpack_stopped(symbols@, i + 1, data, p0, tc, o0);
                }
                return Err("Zero-run length exceeds target pixel count");
            }
            let ghost before = residuals_out@;
            let mut j: usize = 0;
            while j < run
                invariant
                    j <= run,
                    residuals_out@ == before + Seq::new(j as nat, |k: int| 0u8),
                decreases run - j,
            {
                residuals_out.push(0);
                j = j + 1;
                proof {
                    assert(residuals_out@ =~= before + Seq::new(j as nat, |k: int| 0u8));
                }
            }
        } else if sym < 128 {
            residuals_out.push(sym);
        } else {
            let d: u8 = sym - 128;
            assert(d << 1 == 2 * d) by (bit_vector)
                requires
                    d < 64,
            ;
            let base: u8 = 128 + (d << 1);
            let bit: u64 = reader.read_bits(1);
            proof {
                vstd::arithmetic::power2::lemma2_to64();
                vstd::arithmetic::div_mod::lemma_mod_bound(
                    (bytes_value(data) / pow2(reader.bit_pos())) as int,
                    2,
                );
            }
            let b8: u8 = bit as u8;
            proof {
                assert(base | b8 == base + b8) by (bit_vector)
                    requires
                        base % 2 == 0,
                        b8 < 2,
                ;
            }
            residuals_out.push(base | b8);
        }
        i = i + 1;
    }
    proof {
        assert(symbols@.take(symbols@.len() as int) =~= symbols@);
    }
    if residuals_out.len() != target_count {
        return Err("Decoded image residual count does not match expected row width");
    }
    Ok(())
}

} // verus!

verus! {

/// The number of residuals that the first `k` symbols of a packed row stand for.
pub open spec fn token_cover(res: Seq<u8>, k: nat) -> nat
    decreases k,
{
    if k == 0 {
        0
    } else {
        token_cover(res, (k - 1) as nat) + pack_tokens(res)[k - 1].2
    }
}

proof fn lemma_tokens_skip(res: Seq<u8>, k: nat)
    requires
        k <= pack_tokens(res).len(),
    ensures
        token_cover(res, k) <= res.len(),
        pack_tokens(res).skip(k as int) == pack_tokens(res.skip(token_cover(res, k) as int)),
    decreases k,
{
    let tokens = pack_tokens(res);
    if k == 0 {
        assert(res.skip(0) =~= res);
        assert(tokens.skip(0) =~= tokens);
    } else {
        lemma_tokens_skip(res, (k - 1) as nat);
        let c = token_cover(res, (k - 1) as nat);
        assert(tokens.skip(k - 1).len() > 0);
        if c == res.len() {
            assert(res.skip(c as int) =~= Seq::<u8>::empty());
            assert(false);
        }
        lemma_pack_step(res, c as int);
        assert(tokens.skip(k - 1)[0] == tokens[k - 1]);
        assert(tokens.skip(k as int) =~= tokens.skip(k - 1).drop_first());
    }
}

/// Unpacking the first `k` symbols of a packed row gives the residuals they
/// stand for and moves past their extra bits.
proof fn lemma_unpack_prefix(res: Seq<u8>, data: Seq<u8>, k: nat)
    requires
        k <= pack_tokens(res).len(),
        bytes_value(data) == packed(pack_fields(res)),
        8 * data.len() >= total_bits(pack_fields(res)),
    ensures
        unpack_state(pack_symbols(res).take(k as int), data, 0, res.len(), Seq::empty()) == (
        Unpacked {
            out: res.take(token_cover(res, k) as int),
            pos: total_bits(pack_fields(res).take(k as int)),
            err: None,
        }),
    decreases k,
{
    let tokens = pack_tokens(res);
    let syms = pack_symbols(res);
    let xs = pack_fields(res);
    if k == 0 {
        assert(syms.take(0) =~= Seq::<u8>::empty());
        assert(res.take(0) =~= Seq::<u8>::empty());
        assert(xs.take(0) =~= Seq::<(u64, u8)>::empty());
    } else {
        let j = k - 1;
        lemma_unpack_prefix(res, data, j as nat);
        lemma_tokens_skip(res, j as nat);
        lemma_tokens_skip(res, k);
        let c = token_cover(res, j as nat);
        let t = tokens[j];
        let sk = res.skip(c as int);
        assert(tokens.skip(j)[0] == t);
        if c == res.len() {
            assert(sk =~= Seq::<u8>::empty());
            assert(false);
        }
        lemma_pack_step(res, c as int);
        lemma_leading_zeros(sk, 65);
        assert(syms.take(k as int).drop_last() =~= syms.take(j));
        assert(syms.take(k as int).last() == t.0);
        assert(xs.take(k as int).drop_last() =~= xs.take(j));
        assert(xs[j] == t.1);
        let st = unpack_state(syms.take(j), data, 0, res.len(), Seq::empty());
        let v = res[c as int];
        assert(sk[0] == v);
        assert(token_cover(res, k) == c + t.2);
        let pj = total_bits(xs.take(j));
        let now = unpack_state(syms.take(k as int), data, 0, res.len(), Seq::empty());
        if v == 0 {
            let r = t.2;
            assert(r == zero_run(sk));
            assert(t.1 == (0u64, 0u8));
            assert(total_bits(xs.take(k as int)) == pj);
            if r == 1 {
                assert(t.0 == 0);
                assert(res.take(c as int + 1) =~= res.take(c as int).push(0u8));
                assert(now == Unpacked { out: res.take(c as int + 1), pos: pj, err: None });
            } else {
                assert(2 <= r <= 65);
                assert(t.0 == (192 + r - 2) as u8);
                assert(t.0 >= 192 && t.0 - 190 == r);
                assert(res.take(c as int + r as int) =~= res.take(c as int) + Seq::new(r, |i: int| 0u8)) by {
                    assert forall|i: int| c <= i < c + r implies res[i] == 0u8 by {
                        assert(sk[i - c] == res[i]);
                    }
                }
                assert(now == Unpacked { out: res.take(c as int + r as int), pos: pj, err: None });
            }
        } else if v < 128 {
            assert(t == (v, (0u64, 0u8), 1nat));
            assert(total_bits(xs.take(k as int)) == pj);
            assert(res.take(c as int + 1) =~= res.take(c as int).push(v));
            assert(now == Unpacked { out: res.take(c as int + 1), pos: pj, err: None });
        } else {
            assert(t == ((128 + (v - 128) / 2) as u8, (((v - 128) % 2) as u64, 1u8), 1nat));
            lemma_read_packed_field(xs, j, data);
            vstd::arithmetic::power2::lemma2_to64();
            let d = (v - 128) as int;
            assert(read_val(data, pj, 1) == d % 2);
            assert(128 + 2 * (d / 2) + d % 2 == v);
            assert(res.take(c as int + 1) =~= res.take(c as int).push(v));
            assert(now.out == res.take(c as int + 1));
        }
    }
}

/// Unpacking what `pack_8bit_residuals` wrote, with the extra bits as the
/// bit writer left them, gives the residuals back.
pub proof fn lemma_pack_roundtrip(res: Seq<u8>, data: Seq<u8>)
    requires
        bytes_value(data) == packed(pack_fields(res)),
        8 * data.len() >= total_bits(pack_fields(res)),
    ensures
        unpack_state(pack_symbols(res), data, 0, res.len(), Seq::empty()) == (Unpacked {
            out: res,
            pos: total_bits(pack_fields(res)),
            err: None,
        }),
        unpack_outcome(pack_symbols(res), data, 0, res.len(), Seq::empty()) == Ok::<
            (),
            &'static str,
        >(()),
{
    let tokens = pack_tokens(res);
    let n = tokens.len();
    lemma_unpack_prefix(res, data, n);
    lemma_tokens_skip(res, n);
    let c = token_cover(res, n);
    if c < res.len() {
        lemma_pack_step(res, c as int);
        assert(tokens.skip(n as int) =~= Seq::<PackToken>::empty());
        assert(false);
    }
    assert(pack_symbols(res).take(n as int) =~= pack_symbols(res));
    assert(pack_fields(res).take(n as int) =~= pack_fields(res));
    assert(res.take(c as int) =~= res);
}


/// Where unpacking meets no error, what it gives does not depend on the
/// target count.
proof fn lemma_unpack_target_free(
    syms: Seq<u8>,
    data: Seq<u8>,
    p: nat,
    t1: nat,
    t2: nat,
    out0: Seq<u8>,
)
    requires
        unpack_state(syms, data, p, t1, out0).err is None,
        unpack_state(syms, data, p, t2, out0).err is None,
    ensures
        unpack_state(syms, data, p, t1, out0).out == unpack_state(syms, data, p, t2, out0).out,
        unpack_state(syms, data, p, t1, out0).pos == unpack_state(syms, data, p, t2, out0).pos,
    decreases syms.len(),
{
    if syms.len() > 0 {
        let pre = syms.drop_last();
        let a = unpack_state(pre, data, p, t1, out0);
        let b = unpack_state(pre, data, p, t2, out0);
        if a.err is None && b.err is None {
            lemma_unpack_target_free(pre, data, p, t1, t2, out0);
        }
    }
}

/// Unpacking what `pack_8bit_residuals` wrote succeeds at the count of the
/// residuals packed and at no other count.
pub proof fn lemma_pack_count_exact(res: Seq<u8>, data: Seq<u8>, target: nat)
    requires
        bytes_value(data) == packed(pack_fields(res)),
        8 * data.len() >= total_bits(pack_fields(res)),
    ensures
        unpack_outcome(pack_symbols(res), data, 0, target, Seq::empty()) is Ok <==> target
            == res.len(),
{
    lemma_pack_roundtrip(res, data);
    let a = unpack_state(pack_symbols(res), data, 0, target, Seq::empty());
    if target != res.len() && a.err is None {
        lemma_unpack_target_free(pack_symbols(res), data, 0, target, res.len(), Seq::empty());
    }
}


/// The distance between two integers.
pub open spec fn gap(x: int, y: int) -> int {
    if x >= y {
        x - y
    } else {
        y - x
    }
}

/// Paeth picks, of left `a`, above `b` and above-left `c`, one closest to
/// `p = a + b - c`; on a tie it prefers left, then above.
pub proof fn lemma_paeth_closest(a: u8, b: u8, c: u8)
    ensures
        ({
            let p = a + b - c;
            let r = paeth_spec(a, b, c);
            &&& r == a || r == b || r == c
            &&& gap(p, r as int) <= gap(p, a as int)
            &&& gap(p, r as int) <= gap(p, b as int)
            &&& gap(p, r as int) <= gap(p, c as int)
            &&& gap(p, a as int) == gap(p, r as int) ==> r == a
            &&& gap(p, b as int) == gap(p, r as int) && r != a ==> r == b
        }),
{
}

/// How far a residual, read as a signed byte, is from zero: a residual of
/// 255 stands for -1 and is one away.
pub open spec fn wrap_distance(r: u8) -> nat {
    let up = r as int;
    let down = 256 - r as int;
    if up <= down {
        up as nat
    } else {
        down as nat
    }
}

/// The total distance from zero of a row of residuals.
pub open spec fn row_distance(s: Seq<u8>) -> nat
    decreases s.len(),
{
    if s.len() == 0 {
        0
    } else {
        wrap_distance(s[0]) + row_distance(s.drop_first())
    }
}

proof fn lemma_row_distance_append(s: Seq<u8>, x: u8)
    ensures
        row_distance(s.push(x)) == row_distance(s) + wrap_distance(x),
    decreases s.len(),
{
    if s.len() > 0 {
        assert(s.push(x).drop_first() =~= s.drop_first().push(x));
        assert(s.push(x)[0] == s[0]);
        lemma_row_distance_append(s.drop_first(), x);
    } else {
        assert(s.push(x).drop_first() =~= Seq::<u8>::empty());
        assert(s.push(x)[0] == x);
        assert(row_distance(Seq::<u8>::empty()) == 0);
        assert(s =~= Seq::<u8>::empty());
    }
}

/// The selector's row score is the total distance from zero.
proof fn lemma_row_score_is_distance(s: Seq<u8>)
    ensures
        row_score(s) == row_distance(s),
    decreases s.len(),
{
    if s.len() > 0 {
        lemma_row_score_is_distance(s.drop_last());
        lemma_row_distance_append(s.drop_last(), s.last());
        assert(s.drop_last().push(s.last()) =~= s);
    }
}

/// The best of the first `k` candidates scores no more than any of them and
/// the bar, and is one of them unless none beat the bar.
proof fn lemma_best_upto(curr: Seq<u8>, prev: Seq<u8>, k: nat)
    requires
        k <= 7,
    ensures
        best_upto(curr, prev, k).1 <= u32::MAX,
        forall|j: int|
            0 <= j < k ==> best_upto(curr, prev, k).1 <= row_score(
                filtered(curr, prev, #[trigger] candidate(j)),
            ),
        best_upto(curr, prev, k).1 < u32::MAX ==> exists|j: int|
            0 <= j < k && best_upto(curr, prev, k).0 == candidate(j) && best_upto(curr, prev, k).1
                == row_score(filtered(curr, prev, #[trigger] candidate(j))),
    decreases k,
{
    if k > 0 {
        lemma_best_upto(curr, prev, (k - 1) as nat);
        let b = best_upto(curr, prev, (k - 1) as nat);
        let sc = row_score(filtered(curr, prev, candidate(k - 1))) as int;
        if sc < b.1 {
            assert(best_upto(curr, prev, k).0 == candidate(k - 1));
        } else if b.1 < u32::MAX {
            let j = choose|j: int|
                0 <= j < k - 1 && b.0 == candidate(j) && b.1 == row_score(
                    filtered(curr, prev, #[trigger] candidate(j)),
                );
            assert(0 <= j < k && best_upto(curr, prev, k).0 == candidate(j));
        }
    }
}

/// The filter the selector picks for a row leaves residuals whose total
/// distance from zero (a residual of 255 is one away) is no larger than that
/// of any other candidate, for rows short enough that their scores fit the
/// selector's 32-bit bar.
pub proof fn lemma_best_filter_minimal(curr: Seq<u8>, prev: Seq<u8>, k: int)
    requires
        0 <= k < 7,
        128 * curr.len() < u32::MAX,
    ensures
        row_distance(filtered(curr, prev, best_filter(curr, prev))) <= row_distance(
            filtered(curr, prev, candidate(k)),
        ),
{
    lemma_best_upto(curr, prev, 7);
    let b = best_upto(curr, prev, 7);
    let f0 = filtered(curr, prev, candidate(0));
    lemma_row_score_bound(f0);
    assert(b.1 <= row_score(f0));
    let j = choose|j: int|
        0 <= j < 7 && b.0 == candidate(j) && b.1 == row_score(
            filtered(curr, prev, #[trigger] candidate(j)),
        );
    assert(b.1 <= row_score(filtered(curr, prev, candidate(k))));
    lemma_row_score_is_distance(filtered(curr, prev, candidate(j)));
    lemma_row_score_is_distance(filtered(curr, prev, candidate(k)));
}

} // verus!
