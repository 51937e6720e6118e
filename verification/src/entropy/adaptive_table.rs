//! Adaptive frequency table for rANS entropy coding.
//!
//! The table keeps raw observation counts and, from them, normalized
//! frequencies that sum to exactly `TOTAL_FREQ`, their cumulative sums and a
//! slot-to-symbol lookup table. All of it is pure integer arithmetic, so an
//! encoder and a decoder that observe the same symbols hold equal tables.

use vstd::prelude::*;

verus! {

pub const ALPHABET_SIZE: usize = 256;

pub const TOTAL_BITS: u32 = 10;

/// Normalized frequencies sum to this value (`1 << TOTAL_BITS`).
pub const TOTAL_FREQ: u32 = 1024;

/// Raw observation total at which counts are halved and renormalized.
pub const RESCALE_LIMIT: u32 = 2048;

/// Share of `TOTAL_FREQ` that is distributed in proportion to the raw counts
/// (every symbol first receives one unit).
pub open spec fn rem_target() -> nat {
    768
}

// ---------------------------------------------------------------------------
// Sums over sequences.

/// Sum of a sequence of 16-bit counts.
pub open spec fn sum16(s: Seq<u16>) -> nat
    decreases s.len(),
{
    if s.len() == 0 {
        0
    } else {
        sum16(s.drop_last()) + s.last() as nat
    }
}

/// Number of `true` entries.
pub open spec fn count_true(s: Seq<bool>) -> nat
    decreases s.len(),
{
    if s.len() == 0 {
        0
    } else {
        count_true(s.drop_last()) + if s.last() {
            1nat
        } else {
            0nat
        }
    }
}

pub proof fn lemma_sum16_take_step(s: Seq<u16>, k: int)
    requires
        0 <= k < s.len(),
    ensures
        sum16(s.take(k + 1)) == sum16(s.take(k)) + s[k] as nat,
{
    assert(s.take(k + 1).drop_last() =~= s.take(k));
}

pub proof fn lemma_sum16_take_mono(s: Seq<u16>, a: int, b: int)
    requires
        0 <= a <= b <= s.len(),
    ensures
        sum16(s.take(a)) <= sum16(s.take(b)),
    decreases b - a,
{
    if a < b {
        lemma_sum16_take_mono(s, a, b - 1);
        lemma_sum16_take_step(s, b - 1);
    }
}

/// Every entry at least one makes prefix sums strictly increasing.
pub proof fn lemma_sum16_take_strict(s: Seq<u16>, a: int, b: int)
    requires
        0 <= a < b <= s.len(),
        forall|i: int| 0 <= i < s.len() ==> s[i] >= 1,
    ensures
        sum16(s.take(a)) + (b - a) <= sum16(s.take(b)),
    decreases b - a,
{
    lemma_sum16_take_step(s, b - 1);
    if a < b - 1 {
        lemma_sum16_take_strict(s, a, b - 1);
    }
}

pub proof fn lemma_sum16_update(s: Seq<u16>, i: int, v: u16)
    requires
        0 <= i < s.len(),
    ensures
        sum16(s.update(i, v)) + s[i] as nat == sum16(s) + v as nat,
    decreases s.len(),
{
    if i < s.len() - 1 {
        assert(s.update(i, v).drop_last() =~= s.drop_last().update(i, v));
        lemma_sum16_update(s.drop_last(), i, v);
    } else {
        assert(s.update(i, v).drop_last() =~= s.drop_last());
    }
}

pub proof fn lemma_count_true_update(s: Seq<bool>, i: int)
    requires
        0 <= i < s.len(),
        !s[i],
    ensures
        count_true(s.update(i, true)) == count_true(s) + 1,
    decreases s.len(),
{
    if i < s.len() - 1 {
        assert(s.update(i, true).drop_last() =~= s.drop_last().update(i, true));
        lemma_count_true_update(s.drop_last(), i);
    } else {
        assert(s.update(i, true).drop_last() =~= s.drop_last());
    }
}

pub proof fn lemma_count_true_bound(s: Seq<bool>)
    ensures
        count_true(s) <= s.len(),
        count_true(s) < s.len() ==> exists|i: int| 0 <= i < s.len() && !s[i],
    decreases s.len(),
{
    if s.len() > 0 {
        lemma_count_true_bound(s.drop_last());
        if count_true(s) < s.len() && s.last() {
            let i = choose|i: int| 0 <= i < s.drop_last().len() && !s.drop_last()[i];
            assert(!s[i]);
        }
    }
}

// ---------------------------------------------------------------------------
// Normalization as a function of the raw counts.

/// Units proportional to count `c` out of raw total `t` (rounded down).
pub open spec fn share(c: u16, t: nat) -> nat {
    (c as nat * rem_target()) / t
}

/// What the rounding left over of that share, in units of `1 / t`.
pub open spec fn share_rem(c: u16, t: nat) -> nat {
    (c as nat * rem_target()) % t
}

/// Units handed out by rounding down, over the first `n` counts.
pub open spec fn allocated_upto(raw: Seq<u16>, t: nat, n: int) -> nat
    decreases n,
{
    if n <= 0 {
        0
    } else {
        allocated_upto(raw, t, n - 1) + share(raw[n - 1], t)
    }
}

/// Units still to hand out after rounding down.
pub open spec fn leftover(raw: Seq<u16>, t: nat) -> int {
    rem_target() - allocated_upto(raw, t, 256)
}

/// The symbol among the first `n` not yet picked whose remainder is largest
/// (the lowest such index on ties), or `-1` if all of them are picked.
pub open spec fn best_unpicked(rems: Seq<nat>, picked: Seq<bool>, n: int) -> int
    decreases n,
{
    if n <= 0 {
        -1
    } else {
        let b = best_unpicked(rems, picked, n - 1);
        let i = n - 1;
        if picked[i] {
            b
        } else if b < 0 || rems[i] > rems[b] {
            i
        } else {
            b
        }
    }
}

/// Marks `k` more symbols, each time the best one not yet marked.
pub open spec fn pick(rems: Seq<nat>, picked: Seq<bool>, k: nat) -> Seq<bool>
    decreases k,
{
    if k == 0 {
        picked
    } else {
        let b = best_unpicked(rems, picked, 256);
        if b < 0 {
            picked
        } else {
            pick(rems, picked.update(b, true), (k - 1) as nat)
        }
    }
}

pub open spec fn remainders(raw: Seq<u16>, t: nat) -> Seq<nat> {
    Seq::new(256, |i: int| share_rem(raw[i], t))
}

/// The symbols that receive one of the left-over units: the `leftover`
/// largest remainders, ties broken toward the lower symbol.
pub open spec fn bonus(raw: Seq<u16>, t: nat) -> Seq<bool> {
    pick(remainders(raw, t), Seq::new(256, |i: int| false), leftover(raw, t) as nat)
}

/// The normalized frequencies for raw counts `raw` with total `t`.
pub open spec fn normalized_freq(raw: Seq<u16>, t: nat) -> Seq<u16> {
    Seq::new(
        256,
        |i: int|
            (1 + share(raw[i], t) + if bonus(raw, t)[i] {
                1nat
            } else {
                0nat
            }) as u16,
    )
}

/// Cumulative frequencies: entry `i` is the sum of the first `i` frequencies.
pub open spec fn cum_of(freq: Seq<u16>) -> Seq<u16> {
    Seq::new(257, |i: int| sum16(freq.take(i)) as u16)
}

/// The symbol whose slot range `[cum[s], cum[s + 1])` holds `slot`, searching
/// from symbol `s`.
pub open spec fn slot_symbol(freq: Seq<u16>, s: int, slot: int) -> int
    decreases 255 - s,
{
    if s >= 255 {
        255
    } else if slot < sum16(freq.take(s + 1)) {
        s
    } else {
        slot_symbol(freq, s + 1, slot)
    }
}

/// Slot-to-symbol lookup table.
pub open spec fn lut_of(freq: Seq<u16>) -> Seq<u8> {
    Seq::new(1024, |slot: int| slot_symbol(freq, 0, slot) as u8)
}

pub proof fn lemma_slot_symbol(freq: Seq<u16>, j: int, s: int, slot: int)
    requires
        freq.len() == 256,
        0 <= j <= s <= 255,
        sum16(freq.take(s)) <= slot < sum16(freq.take(s + 1)),
    ensures
        slot_symbol(freq, j, slot) == s,
    decreases 255 - j,
{
    if j < 255 {
        if slot < sum16(freq.take(j + 1)) {
            if j < s {
                lemma_sum16_take_mono(freq, j + 1, s);
            }
        } else {
            if j == s {
                assert(false);
            }
            lemma_slot_symbol(freq, j + 1, s, slot);
        }
    }
}


/// Rounding remainders, summed over the first `n` counts.
pub open spec fn rem_sum_upto(raw: Seq<u16>, t: nat, n: int) -> nat
    decreases n,
{
    if n <= 0 {
        0
    } else {
        rem_sum_upto(raw, t, n - 1) + share_rem(raw[n - 1], t)
    }
}

proof fn lemma_allocation_identity(raw: Seq<u16>, t: nat, n: int)
    requires
        t > 0,
        0 <= n <= raw.len(),
    ensures
        allocated_upto(raw, t, n) * t + rem_sum_upto(raw, t, n) == rem_target() * sum16(
            raw.take(n),
        ),
        rem_sum_upto(raw, t, n) <= n * (t - 1),
        allocated_upto(raw, t, n) <= allocated_upto(raw, t, raw.len() as int),
    decreases n,
{
    if n > 0 {
        lemma_allocation_identity(raw, t, n - 1);
        lemma_sum16_take_step(raw, n - 1);
        let c = raw[n - 1] as nat * rem_target();
        let a = allocated_upto(raw, t, n - 1);
        let q = share(raw[n - 1], t);
        let r = share_rem(raw[n - 1], t);
        vstd::arithmetic::div_mod::lemma_fundamental_div_mod(c as int, t as int);
        assert(c == t * q + r);
        assert(r < t) by {
            vstd::arithmetic::div_mod::lemma_mod_bound(c as int, t as int);
        }
        assert((a + q) * t == a * t + q * t) by (nonlinear_arith);
        assert(q * t == t * q) by (nonlinear_arith);
        let p = sum16(raw.take(n - 1));
        let x = raw[n - 1] as nat;
        assert(768 * (p + x) == 768 * p + c) by (nonlinear_arith)
            requires
                c == x * 768,
        ;
        assert((n - 1) * (t - 1) + (t - 1) == n * (t - 1)) by (nonlinear_arith);
        assert(allocated_upto(raw, t, n) == a + q);
        assert(rem_sum_upto(raw, t, n) == rem_sum_upto(raw, t, n - 1) + r);
        assert(sum16(raw.take(n)) == p + x);
        assert(rem_target() == 768);
        let rs = rem_sum_upto(raw, t, n - 1);
        assert((a + q) * t + (rs + r) == 768 * (p + x)) by (nonlinear_arith)
            requires
                a * t + rs == 768 * p,
                c == t * q + r,
                c == x * 768,
        ;
        let aa = allocated_upto(raw, t, n);
        let rr = rem_sum_upto(raw, t, n);
        let pp = sum16(raw.take(n));
        assert(aa * t + rr == 768 * pp) by (nonlinear_arith)
            requires
                aa == a + q,
                rr == rs + r,
                pp == p + x,
                (a + q) * t + (rs + r) == 768 * (p + x),
        ;
        lemma_allocated_mono(raw, t, n, raw.len() as int);
    } else {
        assert(raw.take(n).len() == 0);
        let aa = allocated_upto(raw, t, n);
        let pp = sum16(raw.take(n));
        assert(aa == 0 && pp == 0);
        assert(aa * t == 0 && 768 * pp == 0) by (nonlinear_arith)
            requires
                aa == 0,
                pp == 0,
        ;
        lemma_allocated_mono(raw, t, n, raw.len() as int);
    }
}

proof fn lemma_allocated_mono(raw: Seq<u16>, t: nat, a: int, b: int)
    requires
        0 <= a <= b,
    ensures
        allocated_upto(raw, t, a) <= allocated_upto(raw, t, b),
    decreases b - a,
{
    if a < b {
        lemma_allocated_mono(raw, t, a, b - 1);
    }
}

/// Rounding down hands out at most `rem_target()` units and leaves fewer
/// than one unit per symbol.
pub proof fn lemma_allocation(raw: Seq<u16>)
    requires
        raw.len() == 256,
        sum16(raw) > 0,
    ensures
        allocated_upto(raw, sum16(raw), 256) <= rem_target(),
        0 <= leftover(raw, sum16(raw)) < 256,
{
    let t = sum16(raw);
    lemma_allocation_identity(raw, t, 256);
    assert(raw.take(256) =~= raw);
    let a = allocated_upto(raw, t, 256);
    let rs = rem_sum_upto(raw, t, 256);
    assert(a * t + rs == 768 * t);
    assert(a <= 768) by (nonlinear_arith)
        requires
            a * t + rs == 768 * t,
            t > 0,
    ;
    assert(768 - a < 256) by (nonlinear_arith)
        requires
            a * t + rs == 768 * t,
            rs <= 256 * (t - 1),
            t > 0,
            a <= 768,
    ;
}

pub proof fn lemma_best_unpicked(rems: Seq<nat>, picked: Seq<bool>, n: int)
    requires
        0 <= n <= picked.len(),
    ensures
        -1 <= best_unpicked(rems, picked, n) < n,
        best_unpicked(rems, picked, n) >= 0 ==> !picked[best_unpicked(rems, picked, n)],
        (exists|i: int| 0 <= i < n && !picked[i]) ==> best_unpicked(rems, picked, n) >= 0,
    decreases n,
{
    if n > 0 {
        lemma_best_unpicked(rems, picked, n - 1);
    }
}

proof fn lemma_count_true_none(n: nat)
    ensures
        count_true(Seq::new(n, |i: int| false)) == 0,
    decreases n,
{
    if n > 0 {
        assert(Seq::new(n, |i: int| false).drop_last() =~= Seq::new((n - 1) as nat, |i: int| false));
        lemma_count_true_none((n - 1) as nat);
    }
}

/// The abstract state of a table.
pub ghost struct TableView {
    pub freq: Seq<u16>,
    pub cum: Seq<u16>,
    pub lut: Seq<u8>,
    pub raw: Seq<u16>,
    pub total: nat,
}

impl TableView {
    /// Raw counts are all at least one and `total` is their sum.
    pub open spec fn counts_ok(self) -> bool {
        &&& self.raw.len() == 256
        &&& forall|i: int| 0 <= i < 256 ==> self.raw[i] >= 1
        &&& self.total == sum16(self.raw)
    }

    /// Frequencies fit the coder: all at least one, summing to `TOTAL_FREQ`,
    /// with consistent cumulative sums and lookup table.
    pub open spec fn coding_ok(self) -> bool {
        &&& self.freq.len() == 256
        &&& forall|i: int| 0 <= i < 256 ==> self.freq[i] >= 1
        &&& sum16(self.freq) == 1024
        &&& self.cum == cum_of(self.freq)
        &&& self.lut == lut_of(self.freq)
    }

    pub open spec fn wf(self) -> bool {
        self.counts_ok() && self.coding_ok()
    }
}

/// The table normalized from raw counts `raw`.
pub open spec fn normalized_table(raw: Seq<u16>) -> TableView {
    let t = sum16(raw);
    let freq = normalized_freq(raw, t);
    TableView { freq, cum: cum_of(freq), lut: lut_of(freq), raw, total: t }
}

/// Halving every raw count, keeping it at least one.
pub open spec fn halved(raw: Seq<u16>) -> Seq<u16> {
    Seq::new(raw.len(), |i: int| if raw[i] / 2 >= 1 { (raw[i] / 2) as u16 } else { 1u16 })
}

pub open spec fn sat_add16(x: u16) -> u16 {
    if x < 0xffff {
        (x + 1) as u16
    } else {
        x
    }
}

/// The table after observing `symbol`.
pub open spec fn observed(t: TableView, symbol: u8) -> TableView {
    let raw = t.raw.update(symbol as int, sat_add16(t.raw[symbol as int]));
    let total = t.total + 1;
    if total >= 2048 {
        normalized_table(halved(raw))
    } else {
        TableView { raw, total, ..t }
    }
}

/// The table after observing every symbol of `syms` in order.
pub open spec fn observed_all(t: TableView, syms: Seq<u8>) -> TableView
    decreases syms.len(),
{
    if syms.len() == 0 {
        t
    } else {
        observed(observed_all(t, syms.drop_last()), syms.last())
    }
}

#[derive(Clone, Debug)]
pub struct AdaptiveTable {
    /// Normalized frequencies summing exactly to TOTAL_FREQ (all >= 1)
    pub freq: [u16; 256],
    /// Cumulative frequencies: cum[0] = 0, cum[256] = TOTAL_FREQ
    pub cum: [u16; 257],
    /// Fast reverse lookup table: slot (0..1023) -> symbol (0..255)
    pub lut: [u8; 1024],
    /// Running raw observation counts before rescaling
    pub raw_counts: [u16; 256],
    /// Total raw observations in current window
    pub total_raw: u32,
}

impl View for AdaptiveTable {
    type V = TableView;

    open spec fn view(&self) -> TableView {
        TableView {
            freq: self.freq@,
            cum: self.cum@,
            lut: self.lut@,
            raw: self.raw_counts@,
            total: self.total_raw as nat,
        }
    }
}

} // verus!

verus! {

impl AdaptiveTable {
    /// Deterministic pure-integer normalization of the raw counts: every
    /// symbol receives one unit plus its share of the remaining 768 rounded
    /// down, and the units left by rounding go to the largest remainders.
    pub fn normalize(&mut self)
        requires
            old(self)@.total == sum16(old(self)@.raw),
            old(self)@.total >= 1,
        ensures
            final(self)@ == normalized_table(old(self)@.raw),
            final(self)@.coding_ok(),
            old(self)@.counts_ok() ==> final(self)@.wf(),
    {
        let ghost raw = self.raw_counts@;
        let ghost tot = self.total_raw;
        let total_raw: u32 = if self.total_raw > 1 {
            self.total_raw
        } else {
            1
        };
        let ghost t = total_raw as nat;
        let rem_target: u32 = 768;
        proof {
            assert(t == sum16(raw));
            lemma_allocation(raw);
            lemma_allocation_identity(raw, t, 256);
        }
        let mut allocated: u32 = 0;
        let mut rems: [u32; 256] = [0u32; 256];
        let mut i: usize = 0;
        while i < 256
            invariant
                i <= 256,
                self.raw_counts@ == raw,
                self.total_raw == tot,
                tot as nat == t,
                raw.len() == 256,
                t == total_raw as nat,
                forall|j: int| 0 <= j < i ==> share(raw[j], t) <= 768,
                t == sum16(raw),
                t >= 1,
                allocated_upto(raw, t, 256) <= 768,
                allocated == allocated_upto(raw, t, i as int),
                forall|j: int| 0 <= j < i ==> self.freq@[j] == 1 + share(raw[j], t),
                forall|j: int| 0 <= j < i ==> rems@[j] == share_rem(raw[j], t),
                sum16(self.freq@.take(i as int)) == i + allocated,
            decreases 256 - i,
        {
            let c: u32 = self.raw_counts[i] as u32;
            assert(c <= 65535);
            proof {
                lemma_sum16_take_step(raw, i as int);
                lemma_sum16_take_mono(raw, i as int + 1, 256);
                assert(raw.take(256) =~= raw);
                assert(c as nat * 768 / t <= 768) by (nonlinear_arith)
                    requires
                        c <= t,
                        t > 0,
                ;
            }
            let prod: u32 = c * 768;
            let add: u32 = prod / total_raw;
            let r: u32 = prod % total_raw;
            proof {
                lemma_allocated_mono(raw, t, i as int + 1, 256);
                assert(add == share(raw[i as int], t));
            }
            let ghost before = self.freq@;
            self.freq[i] = (1 + add) as u16;
            allocated = allocated + add;
            rems[i] = r;
            proof {
                assert(self.freq@.take(i as int) =~= before.take(i as int));
                lemma_sum16_take_step(self.freq@, i as int);
            }
            i = i + 1;
        }
        let left: u32 = rem_target - allocated;
        let ghost rs = remainders(raw, t);
        let mut picked: [bool; 256] = [false; 256];
        proof {
            assert(self.freq@.take(256) =~= self.freq@);
            assert(picked@ =~= Seq::new(256, |i: int| false));
            lemma_count_true_none(256);
            assert(left == leftover(raw, t));
        }
        let mut k: u32 = 0;
        while k < left
            invariant
                k <= left < 256,
                left == leftover(raw, t),
                self.raw_counts@ == raw,
                self.total_raw == tot,
                tot as nat == t,
                raw.len() == 256,
                t == sum16(raw),
                t >= 1,
                rs == remainders(raw, t),
                forall|j: int| 0 <= j < 256 ==> rems@[j] == rs[j],
                forall|j: int|
                    0 <= j < 256 ==> self.freq@[j] == 1 + share(raw[j], t) + if picked@[j] {
                        1nat
                    } else {
                        0nat
                    },
                forall|j: int| 0 <= j < 256 ==> share(raw[j], t) <= 768,
                count_true(picked@) == k,
                pick(rs, picked@, (left - k) as nat) == bonus(raw, t),
                sum16(self.freq@) == 256 + allocated + k,
                allocated + left == 768,
            decreases left - k,
        {
            let mut best: usize = 0;
            let mut found: bool = false;
            let mut j: usize = 0;
            while j < 256
                invariant
                    j <= 256,
                    best < 256,
                    forall|m: int| 0 <= m < 256 ==> rems@[m] == rs[m],
                    (if found {
                        best as int
                    } else {
                        -1
                    }) == best_unpicked(rs, picked@, j as int),
                decreases 256 - j,
            {
                if !picked[j] && (!found || rems[j] > rems[best]) {
                    best = j;
                    found = true;
                }
                j = j + 1;
            }
            proof {
                lemma_count_true_bound(picked@);
                lemma_best_unpicked(rs, picked@, 256);
                assert(found);
            }
            let ghost before_f = self.freq@;
            let ghost before_p = picked@;
            let fb: u16 = self.freq[best];
            self.freq[best] = fb + 1;
            picked[best] = true;
            proof {
                lemma_sum16_update(before_f, best as int, (fb + 1) as u16);
                lemma_count_true_update(before_p, best as int);
                assert(picked@ == before_p.update(best as int, true));
            }
            k = k + 1;
        }
        proof {
            assert(picked@ == bonus(raw, t));
            assert(self.freq@ =~= normalized_freq(raw, t));
        }
        let ghost freq = self.freq@;
        let mut current: u16 = 0;
        let mut s: usize = 0;
        proof {
            assert(freq.take(0).len() == 0);
        }
        while s < 256
            invariant
                s <= 256,
                self.freq@ == freq,
                self.raw_counts@ == raw,
                self.total_raw == tot,
                tot as nat == sum16(raw),
                freq == normalized_freq(raw, sum16(raw)),
                freq.len() == 256,
                forall|m: int| 0 <= m < 256 ==> freq[m] >= 1,
                sum16(freq) == 1024,
                current as nat == sum16(freq.take(s as int)),
                forall|m: int| 0 <= m < s ==> self.cum@[m] as nat == sum16(freq.take(m)),
                forall|slot: int|
                    0 <= slot < current ==> self.lut@[slot] as int == slot_symbol(freq, 0, slot),
            decreases 256 - s,
        {
            self.cum[s] = current;
            let f: u16 = self.freq[s];
            proof {
                lemma_sum16_take_step(freq, s as int);
                lemma_sum16_take_mono(freq, s as int + 1, 256);
                assert(freq.take(256) =~= freq);
            }
            let end: u16 = current + f;
            let mut slot: u16 = current;
            while slot < end
                invariant
                    current <= slot <= end,
                    s < 256,
                    end as nat == sum16(freq.take(s as int + 1)),
                    current as nat == sum16(freq.take(s as int)),
                    end <= 1024,
                    self.freq@ == freq,
                    self.raw_counts@ == raw,
                    self.total_raw == tot,
                    freq.len() == 256,
                    forall|m: int| 0 <= m <= s ==> self.cum@[m] as nat == sum16(freq.take(m)),
                    forall|sl: int|
                        0 <= sl < slot ==> self.lut@[sl] as int == slot_symbol(freq, 0, sl),
                decreases end - slot,
            {
                proof {
                    lemma_slot_symbol(freq, 0, s as int, slot as int);
                }
                self.lut[slot as usize] = s as u8;
                slot = slot + 1;
            }
            current = end;
            s = s + 1;
        }
        self.cum[256] = current;
        proof {
            assert(freq.take(256) =~= freq);
            assert(self.cum@ =~= cum_of(freq));
            assert forall|slot: int| 0 <= slot < 1024 implies self.lut@[slot] == lut_of(freq)[slot] by {
                let sym = slot_symbol(freq, 0, slot);
                assert(0 <= sym <= 255) by {
                    lemma_slot_symbol_range(freq, 0, slot);
                }
            }
            assert(self.lut@ =~= lut_of(freq));
        }
    }
}

pub proof fn lemma_slot_symbol_range(freq: Seq<u16>, s: int, slot: int)
    requires
        0 <= s,
    ensures
        s <= slot_symbol(freq, s, slot) <= 255 || (s > 255 && slot_symbol(freq, s, slot) == 255),
    decreases 255 - s,
{
    if s < 255 {
        lemma_slot_symbol_range(freq, s + 1, slot);
    }
}

} // verus!

verus! {

/// Raw counts of the uniform table: four for every symbol.
pub open spec fn uniform_raw() -> Seq<u16> {
    Seq::new(256, |i: int| 4u16)
}

/// Raw counts of the skewed table, biased toward small residual symbols.
pub open spec fn skewed_raw() -> Seq<u16> {
    Seq::new(
        256,
        |i: int|
            if i == 0 {
                128u16
            } else if i == 1 {
                64u16
            } else if i == 2 {
                32u16
            } else if i == 3 {
                16u16
            } else if i < 16 {
                8u16
            } else if i < 64 {
                4u16
            } else if i < 128 {
                2u16
            } else {
                1u16
            },
    )
}

/// Raw counts taken from a histogram: each count truncated to 16 bits and
/// raised to at least one.
pub open spec fn raw_from_counts(counts: Seq<u32>) -> Seq<u16> {
    Seq::new(
        256,
        |i: int|
            if counts[i] % 65536 >= 1 {
                (counts[i] % 65536) as u16
            } else {
                1u16
            },
    )
}

impl AdaptiveTable {
    /// Builds a table from raw counts that are all at least one.
    fn from_raw(raw: [u16; 256]) -> (table: Self)
        requires
            forall|i: int| 0 <= i < 256 ==> raw@[i] >= 1,
        ensures
            table@ == normalized_table(raw@),
            table@.wf(),
    {
        let mut total: u32 = 0;
        let mut i: usize = 0;
        proof {
            assert(raw@.take(0).len() == 0);
        }
        while i < 256
            invariant
                i <= 256,
                total as nat == sum16(raw@.take(i as int)),
                total <= i * 65535,
            decreases 256 - i,
        {
            proof {
                lemma_sum16_take_step(raw@, i as int);
            }
            total = total + raw[i] as u32;
            i = i + 1;
        }
        proof {
            assert(raw@.take(256) =~= raw@);
        }
        let mut table = AdaptiveTable {
            freq: [0u16; 256],
            cum: [0u16; 257],
            lut: [0u8; 1024],
            raw_counts: raw,
            total_raw: total,
        };
        table.normalize();
        table
    }

    /// Create a new uniform frequency table (every symbol has equal initial weight).
    pub fn new_uniform() -> (table: Self)
        ensures
            table@ == normalized_table(uniform_raw()),
            table@.wf(),
    {
        let raw: [u16; 256] = [4u16; 256];
        proof {
            assert(raw@ =~= uniform_raw());
        }
        Self::from_raw(raw)
    }

    /// Create an adaptive table with initial bias toward small symbols (standard for residuals).
    pub fn new_skewed() -> (table: Self)
        ensures
            table@ == normalized_table(skewed_raw()),
            table@.wf(),
    {
        let mut raw: [u16; 256] = [1u16; 256];
        raw[0] = 128;
        raw[1] = 64;
        raw[2] = 32;
        raw[3] = 16;
        let mut i: usize = 4;
        while i < 128
            invariant
                4 <= i <= 128,
                forall|j: int| 0 <= j < i ==> raw@[j] == skewed_raw()[j],
                forall|j: int| i <= j < 256 ==> raw@[j] == 1,
            decreases 128 - i,
        {
            raw[i] = if i < 16 {
                8
            } else if i < 64 {
                4
            } else {
                2
            };
            i = i + 1;
        }
        proof {
            assert(raw@ =~= skewed_raw());
        }
        Self::from_raw(raw)
    }

    /// Build a table customized from an exact frequency count histogram.
    pub fn from_counts(counts: &[u32; 256]) -> (table: Self)
        ensures
            table@ == normalized_table(raw_from_counts(counts@)),
            table@.wf(),
    {
        let mut raw: [u16; 256] = [1u16; 256];
        let mut i: usize = 0;
        while i < 256
            invariant
                i <= 256,
                forall|j: int| 0 <= j < i ==> raw@[j] == raw_from_counts(counts@)[j],
            decreases 256 - i,
        {
            let c: u32 = counts[i];
            #[verifier::truncate]
            let low: u16 = c as u16;
            assert(low == c % 65536) by (bit_vector)
                requires
                    low == c as u16,
            ;
            raw[i] = if low > 1 {
                low
            } else {
                1
            };
            i = i + 1;
        }
        proof {
            assert(raw@ =~= raw_from_counts(counts@));
        }
        Self::from_raw(raw)
    }

    /// Observe a symbol occurrence and trigger rescaling if limit reached.
    pub fn observe(&mut self, symbol: u8)
        requires
            old(self)@.wf(),
        ensures
            final(self)@ == observed(old(self)@, symbol),
            final(self)@.wf(),
    {
        let ghost before = self.raw_counts@;
        let idx = symbol as usize;
        proof {
            lemma_sum16_update(before, idx as int, sat_add16(before[idx as int]));
            lemma_sum16_bound(before);
            lemma_sum16_take_step(before, idx as int);
            lemma_sum16_take_mono(before, idx as int + 1, 256);
            assert(before.take(256) =~= before);
        }
        self.raw_counts[idx] = self.raw_counts[idx].saturating_add(1);
        self.total_raw = self.total_raw.saturating_add(1);
        if self.total_raw >= RESCALE_LIMIT {
            self.rescale_and_normalize();
        }
    }

    /// Halve all raw counts (keeping >= 1) and renormalize.
    pub fn rescale_and_normalize(&mut self)
        ensures
            final(self)@ == normalized_table(halved(old(self)@.raw)),
            final(self)@.wf(),
    {
        let ghost before = self.raw_counts@;
        let mut new_total: u32 = 0;
        let mut i: usize = 0;
        proof {
            assert(self.raw_counts@.take(0).len() == 0);
        }
        while i < 256
            invariant
                i <= 256,
                forall|j: int| 0 <= j < i ==> self.raw_counts@[j] == halved(before)[j],
                forall|j: int| i <= j < 256 ==> self.raw_counts@[j] == before[j],
                new_total as nat == sum16(self.raw_counts@.take(i as int)),
                new_total <= i * 65535,
                before.len() == 256,
            decreases 256 - i,
        {
            let c: u16 = self.raw_counts[i];
            let h: u16 = c >> 1;
            assert(h == c / 2) by (bit_vector)
                requires
                    h == c >> 1,
            ;
            let ghost prev = self.raw_counts@;
            self.raw_counts[i] = if h > 1 {
                h
            } else {
                1
            };
            proof {
                assert(self.raw_counts@.take(i as int) =~= prev.take(i as int));
                lemma_sum16_take_step(self.raw_counts@, i as int);
            }
            new_total = new_total + self.raw_counts[i] as u32;
            i = i + 1;
        }
        proof {
            assert(self.raw_counts@.take(256) =~= self.raw_counts@);
            assert(self.raw_counts@ =~= halved(before));
        }
        self.total_raw = new_total;
        self.normalize();
    }
}

impl AdaptiveTable {
    /// Observes every symbol of `symbols` in order.
    pub(crate) fn observe_all(&mut self, symbols: &[u8])
        requires
            old(self)@.wf(),
        ensures
            final(self)@ == observed_all(old(self)@, symbols@),
            final(self)@.wf(),
    {
        let mut i: usize = 0;
        proof {
            assert(symbols@.take(0) =~= Seq::<u8>::empty());
        }
        while i < symbols.len()
            invariant
                i <= symbols@.len(),
                self@.wf(),
                self@ == observed_all(old(self)@, symbols@.take(i as int)),
            decreases symbols@.len() - i,
        {
            self.observe(symbols[i]);
            proof {
                assert(symbols@.take(i + 1).drop_last() =~= symbols@.take(i as int));
            }
            i = i + 1;
        }
        proof {
            assert(symbols@.take(symbols@.len() as int) =~= symbols@);
        }
    }
}

pub proof fn lemma_sum16_bound(s: Seq<u16>)
    ensures
        sum16(s) <= s.len() * 65535,
    decreases s.len(),
{
    if s.len() > 0 {
        lemma_sum16_bound(s.drop_last());
    }
}

impl Default for AdaptiveTable {
    fn default() -> (table: Self)
        ensures
            table@ == normalized_table(skewed_raw()),
            table@.wf(),
    {
        Self::new_skewed()
    }
}

} // verus!

verus! {

/// Frequencies of symbols that each get one unit plus their rounded-down
/// share, and one more unit where `picked` marks them.
spec fn freq_with(raw: Seq<u16>, t: nat, picked: Seq<bool>) -> Seq<u16> {
    Seq::new(
        256,
        |i: int|
            (1 + share(raw[i], t) + if picked[i] {
                1nat
            } else {
                0nat
            }) as u16,
    )
}

/// A count is at most the sum of all counts.
proof fn lemma_count_le_sum(raw: Seq<u16>, i: int)
    requires
        0 <= i < raw.len(),
    ensures
        raw[i] as nat <= sum16(raw),
{
    lemma_sum16_take_step(raw, i);
    lemma_sum16_take_mono(raw, i + 1, raw.len() as int);
    assert(raw.take(raw.len() as int) =~= raw);
}

proof fn lemma_share_bound(raw: Seq<u16>, i: int)
    requires
        0 <= i < raw.len(),
        sum16(raw) > 0,
    ensures
        share(raw[i], sum16(raw)) <= 768,
{
    let t = sum16(raw);
    let c = raw[i] as nat;
    lemma_count_le_sum(raw, i);
    assert(c * 768 / t <= 768) by (nonlinear_arith)
        requires
            c <= t,
            t > 0,
    ;
}

/// Before any bonus unit, the prefix sums are the units handed out so far.
proof fn lemma_freq_with_base(raw: Seq<u16>, n: int)
    requires
        raw.len() == 256,
        sum16(raw) > 0,
        0 <= n <= 256,
    ensures
        sum16(freq_with(raw, sum16(raw), Seq::new(256, |i: int| false)).take(n)) == n
            + allocated_upto(raw, sum16(raw), n),
    decreases n,
{
    let t = sum16(raw);
    let fw = freq_with(raw, t, Seq::new(256, |i: int| false));
    if n > 0 {
        lemma_freq_with_base(raw, n - 1);
        lemma_sum16_take_step(fw, n - 1);
        lemma_share_bound(raw, n - 1);
    } else {
        assert(fw.take(0).len() == 0);
    }
}

/// Each picked symbol adds one unit.
proof fn lemma_pick_sum(raw: Seq<u16>, rems: Seq<nat>, picked: Seq<bool>, k: nat)
    requires
        raw.len() == 256,
        sum16(raw) > 0,
        picked.len() == 256,
        count_true(picked) + k <= 256,
    ensures
        pick(rems, picked, k).len() == 256,
        sum16(freq_with(raw, sum16(raw), pick(rems, picked, k))) == sum16(
            freq_with(raw, sum16(raw), picked),
        ) + k,
    decreases k,
{
    let t = sum16(raw);
    if k > 0 {
        lemma_count_true_bound(picked);
        lemma_best_unpicked(rems, picked, 256);
        let b = best_unpicked(rems, picked, 256);
        let p2 = picked.update(b, true);
        let fw = freq_with(raw, t, picked);
        lemma_share_bound(raw, b);
        assert(freq_with(raw, t, p2) =~= fw.update(b, (fw[b] + 1) as u16));
        lemma_sum16_update(fw, b, (fw[b] + 1) as u16);
        lemma_count_true_update(picked, b);
        lemma_pick_sum(raw, rems, p2, (k - 1) as nat);
    }
}

/// Normalizing counts that are all at least one gives a table fit for coding.
pub proof fn lemma_normalized_wf(raw: Seq<u16>)
    requires
        raw.len() == 256,
        forall|i: int| 0 <= i < 256 ==> raw[i] >= 1,
    ensures
        normalized_table(raw).wf(),
{
    let t = sum16(raw);
    lemma_sum16_take_strict(raw, 0, 256);
    assert(raw.take(256) =~= raw);
    assert(raw.take(0).len() == 0);
    lemma_allocation(raw);
    let none = Seq::new(256, |i: int| false);
    lemma_count_true_none(256);
    lemma_freq_with_base(raw, 256);
    let fw0 = freq_with(raw, t, none);
    assert(fw0.take(256) =~= fw0);
    lemma_pick_sum(raw, remainders(raw, t), none, leftover(raw, t) as nat);
    assert(normalized_freq(raw, t) =~= freq_with(raw, t, bonus(raw, t)));
    assert forall|i: int| 0 <= i < 256 implies normalized_freq(raw, t)[i] >= 1 by {
        lemma_share_bound(raw, i);
    }
}

/// Observing a symbol keeps a table fit for coding.
pub proof fn lemma_observed_wf(t: TableView, symbol: u8)
    requires
        t.wf(),
    ensures
        observed(t, symbol).wf(),
{
    let s = symbol as int;
    let raw = t.raw.update(s, sat_add16(t.raw[s]));
    lemma_count_le_sum(t.raw, s);
    lemma_sum16_update(t.raw, s, sat_add16(t.raw[s]));
    if t.total + 1 >= 2048 {
        lemma_normalized_wf(halved(raw));
    }
}

/// Observing a sequence of symbols keeps a table fit for coding.
pub proof fn lemma_observed_all_wf(t: TableView, syms: Seq<u8>)
    requires
        t.wf(),
    ensures
        observed_all(t, syms).wf(),
    decreases syms.len(),
{
    if syms.len() > 0 {
        lemma_observed_all_wf(t, syms.drop_last());
        lemma_observed_wf(observed_all(t, syms.drop_last()), syms.last());
    }
}

} // verus!
