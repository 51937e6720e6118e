//! 32-bit streaming range Asymmetric Numeral Systems (rANS) decoder.

use vstd::prelude::*;
use crate::entropy::adaptive_table::{AdaptiveTable, TableView, sum16, lemma_slot_symbol};
use crate::entropy::rans_encoder::{RANS_L, renorm, enc_step, enc_all, rans_payload, state_ok,
    freq_of, cum_at, lemma_freq_bounds, lemma_renorm, lemma_enc_all_range};
use crate::le_bytes::{bytes_value, le_bytes, read_le, lemma_le_bytes_roundtrip, lemma_pow256_values};

verus! {

/// Reading bytes into the state while it is below `RANS_L` and bytes remain:
/// the state and cursor that result.
pub open spec fn dec_renorm(x: nat, bytes: Seq<u8>, cur: nat) -> (nat, nat)
    decreases bytes.len() - cur,
{
    if x < 8388608 && cur < bytes.len() {
        dec_renorm(x * 256 + bytes[cur as int] as nat, bytes, cur + 1)
    } else {
        (x, cur)
    }
}

/// Decoding one symbol: the symbol, the state and the cursor that follow.
pub open spec fn dec_step(x: nat, bytes: Seq<u8>, cur: nat, t: TableView) -> (u8, nat, nat) {
    let slot = x % 1024;
    let s = t.lut[slot as int];
    let x1 = freq_of(t, s) * (x / 1024) + (slot - cum_at(t, s));
    let (x2, c2) = dec_renorm(x1 as nat, bytes, cur);
    (s, x2, c2)
}

/// Decoding `n` symbols in forward order.
pub open spec fn dec_all(x: nat, bytes: Seq<u8>, cur: nat, n: nat, t: TableView) -> (
    Seq<u8>,
    nat,
    nat,
)
    decreases n,
{
    if n == 0 {
        (Seq::empty(), x, cur)
    } else {
        let (s, x1, c1) = dec_step(x, bytes, cur, t);
        let (rest, x2, c2) = dec_all(x1, bytes, c1, (n - 1) as nat, t);
        (seq![s] + rest, x2, c2)
    }
}

/// Decoding `n` symbols gives `n` symbols.
pub proof fn lemma_dec_all_len(x: nat, bytes: Seq<u8>, cur: nat, n: nat, t: TableView)
    ensures
        dec_all(x, bytes, cur, n, t).0.len() == n,
    decreases n,
{
    if n > 0 {
        let (s, x1, c1) = dec_step(x, bytes, cur, t);
        lemma_dec_all_len(x1, bytes, c1, (n - 1) as nat, t);
    }
}

/// The symbols decoded from `payload` (state in its first four bytes).
pub open spec fn rans_decoded(payload: Seq<u8>, n: nat, t: TableView) -> Seq<u8> {
    dec_all(bytes_value(payload.take(4)), payload.skip(4), 0, n, t).0
}

/// Every slot lies in the slot range of the symbol that the lookup table
/// gives for it.
pub proof fn lemma_lut_interval(t: TableView, slot: int)
    requires
        t.coding_ok(),
        0 <= slot < 1024,
    ensures
        cum_at(t, t.lut[slot]) <= slot < cum_at(t, t.lut[slot]) + freq_of(t, t.lut[slot]),
{
    assert(t.freq.take(0).len() == 0);
    assert(t.freq.take(256) =~= t.freq);
    let s = find_interval(t.freq, 0, slot);
    lemma_slot_symbol(t.freq, 0, s, slot);
    lemma_freq_bounds(t, s as u8);
}

proof fn find_interval(freq: Seq<u16>, k: int, slot: int) -> (s: int)
    requires
        freq.len() == 256,
        0 <= k <= 255,
        sum16(freq.take(k)) <= slot < sum16(freq.take(256)),
    ensures
        k <= s <= 255,
        sum16(freq.take(s)) <= slot < sum16(freq.take(s + 1)),
    decreases 255 - k,
{
    if slot < sum16(freq.take(k + 1)) {
        k
    } else {
        find_interval(freq, k + 1, slot)
    }
}

/// Reading back the bytes that the encoder emitted while bringing `w` down,
/// in reverse order, rebuilds `w`.
proof fn lemma_dec_renorm_rebuilds(w: nat, f: nat, bytes: Seq<u8>, cur: nat)
    requires
        f >= 1,
        w < 0x8000_0000,
        cur + renorm(w, f).0.len() <= bytes.len(),
        bytes.subrange(cur as int, (cur + renorm(w, f).0.len()) as int) == renorm(w, f).0.reverse(),
    ensures
        dec_renorm(renorm(w, f).1, bytes, cur) == dec_renorm(
            w,
            bytes,
            cur + renorm(w, f).0.len(),
        ),
    decreases w,
{
    if w >= 2097152 * f {
        let (e, z) = renorm(w, f);
        let (e1, z1) = renorm(w / 256, f);
        assert(e == seq![(w % 256) as u8] + e1);
        assert(e.reverse() =~= e1.reverse() + seq![(w % 256) as u8]);
        assert(bytes.subrange(cur as int, (cur + e1.len()) as int) =~= e1.reverse());
        lemma_dec_renorm_rebuilds(w / 256, f, bytes, cur);
        let k = cur + e1.len();
        let sub = bytes.subrange(cur as int, (cur + e.len()) as int);
        assert(sub[e1.len() as int] == bytes[k as int]);
        assert(e.reverse()[e1.len() as int] == (w % 256) as u8);
        assert(bytes[k as int] == (w % 256) as u8);
        assert((w / 256) * 256 + w % 256 == w);
    }
}

/// Decoding inverts one encoding step.
pub proof fn lemma_dec_step_inverts(y: nat, s: u8, t: TableView, bytes: Seq<u8>, cur: nat)
    requires
        t.coding_ok(),
        state_ok(y),
        cur + enc_step(y, s, t).0.len() <= bytes.len(),
        bytes.subrange(cur as int, (cur + enc_step(y, s, t).0.len()) as int) == enc_step(y, s, t).0.reverse(),
    ensures
        dec_step(enc_step(y, s, t).1, bytes, cur, t) == (s, y, cur + enc_step(y, s, t).0.len()),
{
    let f = freq_of(t, s);
    let c = cum_at(t, s);
    lemma_freq_bounds(t, s);
    lemma_renorm(y, f);
    let (e, z) = renorm(y, f);
    let q = z / f;
    let r = z % f;
    let x = enc_step(y, s, t).1;
    assert(x == q * 1024 + c + r);
    assert(r < f && z == f * q + r) by (nonlinear_arith)
        requires
            f >= 1,
            q == z / f,
            r == z % f,
    ;
    assert(x % 1024 == c + r && x / 1024 == q) by (nonlinear_arith)
        requires
            x == q * 1024 + c + r,
            c + r < 1024,
    ;
    let slot = c + r;
    assert(sum16(t.freq.take(s as int)) <= slot < sum16(t.freq.take(s as int + 1)));
    lemma_slot_symbol(t.freq, 0, s as int, slot as int);
    assert(t.lut[slot as int] == s);
    lemma_dec_renorm_rebuilds(y, f, bytes, cur);
}

/// Decoding a whole payload inverts encoding a whole sequence.
pub proof fn lemma_dec_all_inverts(syms: Seq<u8>, t: TableView, bytes: Seq<u8>, cur: nat)
    requires
        t.coding_ok(),
        cur + enc_all(8388608, syms, t).1.len() <= bytes.len(),
        bytes.subrange(cur as int, (cur + enc_all(8388608, syms, t).1.len()) as int) == enc_all(
            8388608,
            syms,
            t,
        ).1.reverse(),
    ensures
        dec_all(enc_all(8388608, syms, t).0, bytes, cur, syms.len(), t) == (
            syms,
            8388608nat,
            cur + enc_all(8388608, syms, t).1.len(),
        ),
    decreases syms.len(),
{
    if syms.len() > 0 {
        let rest = syms.drop_first();
        let (x1, e1) = enc_all(8388608, rest, t);
        let (e, x) = enc_step(x1, syms[0], t);
        lemma_enc_all_range(8388608, rest, t);
        assert((e1 + e).reverse() =~= e.reverse() + e1.reverse());
        assert(bytes.subrange(cur as int, (cur + e.len()) as int) =~= e.reverse());
        lemma_dec_step_inverts(x1, syms[0], t, bytes, cur);
        let whole = bytes.subrange(cur as int, (cur + e.len() + e1.len()) as int);
        assert(whole =~= e.reverse() + e1.reverse());
        assert(bytes.subrange((cur + e.len()) as int, (cur + e.len() + e1.len()) as int) =~= whole.subrange(e.len() as int, (e.len() + e1.len()) as int));
        assert((e.reverse() + e1.reverse()).subrange(e.len() as int, (e.len() + e1.len()) as int) =~= e1.reverse());
        lemma_dec_all_inverts(rest, t, bytes, cur + e.len());
        assert(seq![syms[0]] + rest =~= syms);
    }
}

/// rANS round trip: decoding the payload of a symbol sequence with the same
/// table gives the sequence back.
pub proof fn lemma_rans_roundtrip(syms: Seq<u8>, t: TableView)
    requires
        t.coding_ok(),
    ensures
        rans_decoded(rans_payload(syms, t), syms.len(), t) == syms,
        rans_payload(syms, t).len() >= 4,
        dec_all(
            bytes_value(rans_payload(syms, t).take(4)),
            rans_payload(syms, t).skip(4),
            0,
            syms.len(),
            t,
        ) == (syms, 8388608nat, (rans_payload(syms, t).len() - 4) as nat),
{
    let (x, e) = enc_all(8388608, syms, t);
    lemma_enc_all_range(8388608, syms, t);
    lemma_pow256_values();
    lemma_le_bytes_roundtrip(x, 4);
    let p = rans_payload(syms, t);
    assert(p.take(4) =~= le_bytes(x, 4));
    assert(p.skip(4) =~= e.reverse());
    assert(p.skip(4).subrange(0, e.len() as int) =~= e.reverse());
    lemma_dec_all_inverts(syms, t, p.skip(4), 0);
    assert(p.skip(4).len() == e.len());
}

/// After decoding the whole payload of a symbol sequence, the decoder is
/// back in the encoder's start state (`RANS_L`) with every payload byte read.
pub proof fn lemma_rans_decoder_end_state(syms: Seq<u8>, t: TableView)
    requires
        t.coding_ok(),
    ensures
        dec_all(
            bytes_value(rans_payload(syms, t).take(4)),
            rans_payload(syms, t).skip(4),
            0,
            syms.len(),
            t,
        ).1 == RANS_L,
        dec_all(
            bytes_value(rans_payload(syms, t).take(4)),
            rans_payload(syms, t).skip(4),
            0,
            syms.len(),
            t,
        ).2 == rans_payload(syms, t).skip(4).len(),
{
    lemma_rans_roundtrip(syms, t);
}

pub struct RansDecoder<'a> {
    pub state: u32,
    pub bytes: &'a [u8],
    pub cursor: usize,
}

impl<'a> RansDecoder<'a> {
    /// Initialize decoder from a payload produced by RansEncoder::finish().
    pub fn new(payload: &'a [u8]) -> (r: Result<Self, &'static str>)
        ensures
            r is Ok <==> payload@.len() >= 4,
            r matches Err(e) ==> e == "Payload too short for rANS state",
            r matches Ok(d) ==> {
                &&& d.state as nat == bytes_value(payload@.take(4))
                &&& d.bytes@ == payload@.skip(4)
                &&& d.cursor == 0
            },
    {
        if payload.len() < 4 {
            return Err("Payload too short for rANS state");
        }
        let state = read_le(payload, 0, 4);
        proof {
            assert(payload@.subrange(0, 4) =~= payload@.take(4));
            crate::le_bytes::lemma_bytes_value_bound(payload@.take(4));
            lemma_pow256_values();
        }
        let bytes = &payload[4..payload.len()];
        proof {
            assert(bytes@ =~= payload@.skip(4));
        }
        Ok(RansDecoder { state: state as u32, bytes, cursor: 0 })
    }

    /// Decode a single symbol using the given table.
    pub fn decode_symbol(&mut self, table: &AdaptiveTable) -> (symbol: u8)
        requires
            table@.coding_ok(),
        ensures
            (symbol, final(self).state as nat, final(self).cursor as nat) == dec_step(
                old(self).state as nat,
                old(self).bytes@,
                old(self).cursor as nat,
                table@,
            ),
            final(self).bytes == old(self).bytes,
    {
        let ghost t = table@;
        let st: u32 = self.state;
        let slot: u16 = (st & 1023) as u16;
        assert(slot == st % 1024 && st >> 10 == st / 1024) by (bit_vector)
            requires
                slot == (st & 1023) as u16,
        ;
        let symbol: u8 = table.lut[slot as usize];
        proof {
            lemma_lut_interval(t, slot as int);
            lemma_freq_bounds(t, symbol);
        }
        let c: u32 = table.cum[symbol as usize] as u32;
        let f: u32 = table.freq[symbol as usize] as u32;
        let hi: u32 = st >> 10;
        proof {
            assert(f * hi + (slot - c) < 0x1_0000_0000) by (nonlinear_arith)
                requires
                    f <= 769,
                    hi < 4194304,
                    slot - c < f,
            ;
        }
        self.state = f * hi + (slot as u32 - c);
        let ghost x1 = self.state as nat;
        while self.state < RANS_L && self.cursor < self.bytes.len()
            invariant
                self.bytes == old(self).bytes,
                dec_renorm(self.state as nat, self.bytes@, self.cursor as nat) == dec_renorm(
                    x1,
                    old(self).bytes@,
                    old(self).cursor as nat,
                ),
            decreases self.bytes@.len() - self.cursor,
        {
            let s2: u32 = self.state;
            let b: u8 = self.bytes[self.cursor];
            assert((s2 << 8) | (b as u32) == s2 * 256 + b) by (bit_vector)
                requires
                    s2 < 8388608,
            ;
            self.state = (s2 << 8) | (b as u32);
            self.cursor = self.cursor + 1;
        }
        symbol
    }

    /// Decode count symbols in forward order.
    pub fn decode_block(&mut self, count: usize, table: &AdaptiveTable) -> (symbols: Vec<u8>)
        requires
            table@.coding_ok(),
        ensures
            (symbols@, final(self).state as nat, final(self).cursor as nat) == dec_all(
                old(self).state as nat,
                old(self).bytes@,
                old(self).cursor as nat,
                count as nat,
                table@,
            ),
            final(self).bytes == old(self).bytes,
    {
        let mut symbols: Vec<u8> = Vec::with_capacity(count % 65536);
        let mut k: usize = 0;
        while k < count
            invariant
                k <= count,
                table@.coding_ok(),
                self.bytes == old(self).bytes,
                dec_all(old(self).state as nat, old(self).bytes@, old(self).cursor as nat, count as nat, table@)
                    == ({
                    let (rest, x2, c2) = dec_all(
                        self.state as nat,
                        self.bytes@,
                        self.cursor as nat,
                        (count - k) as nat,
                        table@,
                    );
                    (symbols@ + rest, x2, c2)
                }),
            decreases count - k,
        {
            let ghost before = symbols@;
            let s = self.decode_symbol(table);
            symbols.push(s);
            proof {
                let (rest, x2, c2) = dec_all(
                    self.state as nat,
                    self.bytes@,
                    self.cursor as nat,
                    (count - k - 1) as nat,
                    table@,
                );
                assert(before + (seq![s] + rest) =~= symbols@ + rest);
            }
            k = k + 1;
        }
        proof {
            assert(symbols@ + Seq::<u8>::empty() =~= symbols@);
        }
        symbols
    }
}

} // verus!
