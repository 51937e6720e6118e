//! 32-bit streaming range Asymmetric Numeral Systems (rANS) encoder.
//!
//! The state stays in `[RANS_L, 256 * RANS_L)`. Before a symbol of frequency
//! `f` is encoded, low bytes are emitted until the state is below `2^21 * f`;
//! the symbol then maps the state `x` to `(x / f) * 1024 + cum + x % f`.

use vstd::prelude::*;
use crate::entropy::adaptive_table::{AdaptiveTable, TableView, sum16, lemma_sum16_take_step,
    lemma_sum16_take_mono, lemma_sum16_take_strict};
use crate::le_bytes::{le_bytes, push_le};

verus! {

/// Lower bound of the coder state.
pub const RANS_L: u32 = 8388608;

/// `(1 << 31) >> TOTAL_BITS`: the state bound per unit of frequency.
const MAX_X_BASE: u32 = 2097152;

pub open spec fn state_ok(x: nat) -> bool {
    8388608 <= x < 0x8000_0000
}

/// Bytes emitted (least significant first) to bring `x` below `2^21 * f`, and
/// the state that remains.
pub open spec fn renorm(x: nat, f: nat) -> (Seq<u8>, nat)
    decreases x,
{
    if f >= 1 && x >= 2097152 * f {
        let (e, z) = renorm(x / 256, f);
        (seq![(x % 256) as u8] + e, z)
    } else {
        (Seq::empty(), x)
    }
}

/// Renormalizing a 32-bit state emits at most two bytes.
pub proof fn lemma_renorm_two_bytes(x: nat, f: nat)
    requires
        x < 0x1_0000_0000,
    ensures
        renorm(x, f).0.len() <= 2,
{
    if f >= 1 && x >= 2097152 * f {
        let y = x / 256;
        assert(y < 0x100_0000);
        if y >= 2097152 * f {
            let z = y / 256;
            assert(z < 0x1_0000);
            assert(z < 2097152 * f) by (nonlinear_arith)
                requires
                    f >= 1,
                    z < 0x1_0000,
            ;
            assert(renorm(z, f).0.len() == 0);
            assert(renorm(y, f).0.len() == 1);
        } else {
            assert(renorm(y, f).0.len() == 0);
        }
        assert(renorm(x, f).0.len() == 1 + renorm(y, f).0.len());
    }
}

/// Frequency and cumulative start of `s` in the table.
pub open spec fn freq_of(t: TableView, s: u8) -> nat {
    t.freq[s as int] as nat
}

pub open spec fn cum_at(t: TableView, s: u8) -> nat {
    t.cum[s as int] as nat
}

/// Encoding one symbol: the bytes it emits and the state that follows.
pub open spec fn enc_step(x: nat, s: u8, t: TableView) -> (Seq<u8>, nat) {
    let f = freq_of(t, s);
    let (e, z) = renorm(x, f);
    (e, (z / f) * 1024 + cum_at(t, s) + z % f)
}

/// Encoding a whole symbol sequence, last symbol first: the final state and
/// all bytes emitted, in emission order.
pub open spec fn enc_all(x: nat, syms: Seq<u8>, t: TableView) -> (nat, Seq<u8>)
    decreases syms.len(),
{
    if syms.len() == 0 {
        (x, Seq::empty())
    } else {
        let (x1, e1) = enc_all(x, syms.drop_first(), t);
        let (e, x2) = enc_step(x1, syms[0], t);
        (x2, e1 + e)
    }
}

/// The payload for `syms`: the final state (4 bytes, little endian) and the
/// emitted bytes in reverse emission order.
pub open spec fn rans_payload(syms: Seq<u8>, t: TableView) -> Seq<u8> {
    let (x, e) = enc_all(8388608, syms, t);
    le_bytes(x, 4) + e.reverse()
}

/// Frequencies of a coding table: each symbol's frequency is at most 769 and
/// its slot range `[cum, cum + f)` lies inside `[0, 1024)`.
pub proof fn lemma_freq_bounds(t: TableView, s: u8)
    requires
        t.coding_ok(),
    ensures
        1 <= freq_of(t, s) <= 769,
        cum_at(t, s) + freq_of(t, s) <= 1024,
        cum_at(t, s) == sum16(t.freq.take(s as int)),
        cum_at(t, s) + freq_of(t, s) == sum16(t.freq.take(s as int + 1)),
{
    let i = s as int;
    lemma_sum16_take_step(t.freq, i);
    lemma_sum16_take_mono(t.freq, i + 1, 256);
    assert(t.freq.take(256) =~= t.freq);
    if i > 0 {
        lemma_sum16_take_strict(t.freq, 0, i);
    }
    if i + 1 < 256 {
        lemma_sum16_take_strict(t.freq, i + 1, 256);
    }
    assert(t.freq.take(0).len() == 0);
    assert(sum16(t.freq.take(i)) < 65536) by {
        lemma_sum16_take_mono(t.freq, i, 256);
    }
}

pub proof fn lemma_renorm(x: nat, f: nat)
    requires
        1 <= f,
    ensures
        renorm(x, f).1 < 2097152 * f,
        x >= 8192 * f ==> renorm(x, f).1 >= 8192 * f,
        renorm(x, f).1 <= x,
    decreases x,
{
    if x >= 2097152 * f {
        lemma_renorm(x / 256, f);
    }
}

/// Encoding keeps the state in range.
pub proof fn lemma_enc_step_range(x: nat, s: u8, t: TableView)
    requires
        t.coding_ok(),
        state_ok(x),
    ensures
        state_ok(enc_step(x, s, t).1),
{
    let f = freq_of(t, s);
    let c = cum_at(t, s);
    lemma_freq_bounds(t, s);
    lemma_renorm(x, f);
    let z = renorm(x, f).1;
    assert(8192 * f <= z < 2097152 * f);
    let q = z / f;
    let r = z % f;
    assert(8192 <= q < 2097152 && r < f) by (nonlinear_arith)
        requires
            8192 * f <= z < 2097152 * f,
            f >= 1,
            q == z / f,
            r == z % f,
    ;
}

pub proof fn lemma_enc_all_range(x: nat, syms: Seq<u8>, t: TableView)
    requires
        t.coding_ok(),
        state_ok(x),
    ensures
        state_ok(enc_all(x, syms, t).0),
    decreases syms.len(),
{
    if syms.len() > 0 {
        lemma_enc_all_range(x, syms.drop_first(), t);
        lemma_enc_step_range(enc_all(x, syms.drop_first(), t).0, syms[0], t);
    }
}

pub struct RansEncoder {
    pub state: u32,
    pub bytes: Vec<u8>,
}

impl RansEncoder {
    pub fn new() -> (enc: Self)
        ensures
            enc.state == RANS_L,
            enc.bytes@ == Seq::<u8>::empty(),
    {
        RansEncoder { state: RANS_L, bytes: Vec::with_capacity(512) }
    }

    /// Reset encoder state for a new block.
    pub fn reset(&mut self)
        ensures
            final(self).state == RANS_L,
            final(self).bytes@ == Seq::<u8>::empty(),
    {
        self.state = RANS_L;
        self.bytes.clear();
    }

    /// Encode a single symbol using the given table.
    pub fn encode_symbol(&mut self, symbol: u8, table: &AdaptiveTable)
        requires
            table@.coding_ok(),
        ensures
            final(self).state as nat == enc_step(old(self).state as nat, symbol, table@).1,
            final(self).bytes@ == old(self).bytes@ + enc_step(
                old(self).state as nat,
                symbol,
                table@,
            ).0,
            state_ok(old(self).state as nat) ==> state_ok(final(self).state as nat),
            final(self).bytes@.len() <= old(self).bytes@.len() + 2,
    {
        let ghost t = table@;
        proof {
            lemma_renorm_two_bytes(old(self).state as nat, freq_of(t, symbol));
        }
        proof {
            lemma_freq_bounds(t, symbol);
            if state_ok(old(self).state as nat) {
                lemma_enc_step_range(old(self).state as nat, symbol, t);
            }
            lemma_renorm(old(self).state as nat, freq_of(t, symbol));
        }
        let f: u32 = table.freq[symbol as usize] as u32;
        let c: u32 = table.cum[symbol as usize] as u32;
        let max_x: u32 = MAX_X_BASE * f;
        let ghost x0 = old(self).state as nat;
        while self.state >= max_x
            invariant
                1 <= f <= 769,
                max_x == 2097152 * f,
                self.bytes@ + renorm(self.state as nat, f as nat).0 == old(self).bytes@ + renorm(
                    x0,
                    f as nat,
                ).0,
                renorm(self.state as nat, f as nat).1 == renorm(x0, f as nat).1,
            decreases self.state,
        {
            let st: u32 = self.state;
            let b: u8 = (st & 0xFF) as u8;
            assert(b == st % 256 && st >> 8 == st / 256) by (bit_vector)
                requires
                    b == (st & 0xFF) as u8,
            ;
            self.bytes.push(b);
            self.state = st >> 8;
            proof {
                assert(renorm(st as nat, f as nat).0 == seq![b] + renorm(
                    (st / 256) as nat,
                    f as nat,
                ).0);
                assert(self.bytes@ + renorm(self.state as nat, f as nat).0 =~= old(self).bytes@
                    + renorm(x0, f as nat).0);
            }
        }
        proof {
            assert(renorm(self.state as nat, f as nat).0 =~= Seq::<u8>::empty());
            assert(self.bytes@ =~= old(self).bytes@ + renorm(x0, f as nat).0);
        }
        let z: u32 = self.state;
        let q: u32 = z / f;
        let r: u32 = z % f;
        proof {
            assert(q < 2097152) by (nonlinear_arith)
                requires
                    z < 2097152 * f,
                    q == z / f,
                    f >= 1,
            ;
        }
        assert(q << 10 == q * 1024) by (bit_vector)
            requires
                q < 2097152,
        ;
        self.state = (q << 10) + c + r;
    }

    /// Encode a slice of symbols (backwards, for forward-decoding compatibility).
    pub fn encode_block(&mut self, symbols: &[u8], table: &AdaptiveTable)
        requires
            table@.coding_ok(),
        ensures
            final(self).state as nat == enc_all(old(self).state as nat, symbols@, table@).0,
            final(self).bytes@ == old(self).bytes@ + enc_all(
                old(self).state as nat,
                symbols@,
                table@,
            ).1,
            state_ok(old(self).state as nat) ==> state_ok(final(self).state as nat),
    {
        let n = symbols.len();
        let mut i: usize = n;
        proof {
            assert(symbols@.subrange(n as int, n as int) =~= Seq::<u8>::empty());
        }
        while i > 0
            invariant
                i <= n == symbols@.len(),
                table@.coding_ok(),
                self.state as nat == enc_all(
                    old(self).state as nat,
                    symbols@.subrange(i as int, n as int),
                    table@,
                ).0,
                self.bytes@ == old(self).bytes@ + enc_all(
                    old(self).state as nat,
                    symbols@.subrange(i as int, n as int),
                    table@,
                ).1,
                state_ok(old(self).state as nat) ==> state_ok(self.state as nat),
            decreases i,
        {
            i = i - 1;
            let ghost prev_bytes = self.bytes@;
            self.encode_symbol(symbols[i], table);
            proof {
                let sub = symbols@.subrange(i as int, n as int);
                assert(sub.drop_first() =~= symbols@.subrange(i + 1, n as int));
                assert(sub[0] == symbols@[i as int]);
                let e1 = enc_all(old(self).state as nat, sub.drop_first(), table@).1;
                let e = enc_step(
                    enc_all(old(self).state as nat, sub.drop_first(), table@).0,
                    sub[0],
                    table@,
                ).0;
                assert(self.bytes@ =~= old(self).bytes@ + (e1 + e));
            }
        }
        proof {
            assert(symbols@.subrange(0, n as int) =~= symbols@);
        }
    }

    /// Finish encoding and produce payload: 4-byte state + forward-ordered byte stream.
    pub fn finish(self) -> (out: Vec<u8>)
        ensures
            out@ == le_bytes(self.state as nat, 4) + self.bytes@.reverse(),
    {
        let mut out: Vec<u8> = Vec::with_capacity(4 + self.bytes.len() % 4096);
        push_le(&mut out, self.state as u64, 4);
        let n = self.bytes.len();
        let mut i: usize = n;
        while i > 0
            invariant
                i <= n == self.bytes@.len(),
                out@ == le_bytes(self.state as nat, 4) + self.bytes@.subrange(
                    i as int,
                    n as int,
                ).reverse(),
            decreases i,
        {
            i = i - 1;
            out.push(self.bytes[i]);
            proof {
                assert(self.bytes@.subrange(i as int, n as int).reverse() =~= self.bytes@.subrange(
                    i + 1,
                    n as int,
                ).reverse().push(self.bytes@[i as int]));
            }
        }
        proof {
            assert(self.bytes@.subrange(0, n as int) =~= self.bytes@);
        }
        out
    }
}

impl Default for RansEncoder {
    fn default() -> (enc: Self)
        ensures
            enc.state == RANS_L,
            enc.bytes@ == Seq::<u8>::empty(),
    {
        Self::new()
    }
}

} // verus!
