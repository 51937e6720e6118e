//! Bit-level reader and writer over a little-endian bit order: bit `k` of the
//! stream is bit `k % 8` of byte `k / 8`. Values are written and read least
//! significant bit first, so a stream of bytes is the integer
//! `bytes_value(bytes)` and reading `n` bits at bit position `p` yields
//! `(bytes_value(bytes) / 2^p) % 2^n`.

use vstd::prelude::*;
use vstd::arithmetic::power2::{pow2, lemma_pow2_adds, lemma_pow2_pos, lemma2_to64,
    lemma_pow2_unfold};
use vstd::arithmetic::div_mod::{lemma_div_denominator, lemma_fundamental_div_mod_converse,
    lemma_mod_mod, lemma_small_mod};
use crate::le_bytes::{bytes_value, pow256, lemma_bytes_value_append, lemma_bytes_value_bound,
    lemma_bytes_value_single, le_bytes, lemma_le_bytes_of_value};

verus! {

pub proof fn lemma_pow256_is_pow2(n: nat)
    ensures
        pow256(n) == pow2(8 * n),
    decreases n,
{
    if n > 0 {
        lemma_pow256_is_pow2((n - 1) as nat);
        lemma_pow2_adds(8 * (n - 1) as nat, 8);
        lemma2_to64();
        assert(8 * (n - 1) as nat + 8 == 8 * n);
    } else {
        lemma2_to64();
    }
}

pub proof fn lemma_u128_shl_is_mul(x: u128, s: u128)
    requires
        s < 128,
        x * pow2(s as nat) <= u128::MAX,
    ensures
        x << s == x * pow2(s as nat),
    decreases s,
{
    lemma_pow2_pos(s as nat);
    if s == 0 {
        assert(x << 0 == x) by (bit_vector);
        lemma2_to64();
    } else {
        lemma_pow2_unfold(s as nat);
        lemma_pow2_pos((s - 1) as nat);
        assert(x * pow2((s - 1) as nat) <= x * pow2(s as nat)) by (nonlinear_arith)
            requires
                pow2(s as nat) == 2 * pow2((s - 1) as nat),
        ;
        lemma_u128_shl_is_mul(x, (s - 1) as u128);
        let y = x << ((s - 1) as u128);
        assert(y * 2 <= u128::MAX) by (nonlinear_arith)
            requires
                y == x * pow2((s - 1) as nat),
                x * pow2(s as nat) <= u128::MAX,
                pow2(s as nat) == 2 * pow2((s - 1) as nat),
        ;
        let t = (s - 1) as u128;
        assert(x << s == (x << t) * 2) by (bit_vector)
            requires
                0 < s < 128,
                t + 1 == s,
                (x << t) * 2 <= 0xffff_ffff_ffff_ffff_ffff_ffff_ffff_ffffu128,
        ;
        assert(x * pow2(s as nat) == (x * pow2((s - 1) as nat)) * 2) by (nonlinear_arith)
            requires
                pow2(s as nat) == 2 * pow2((s - 1) as nat),
        ;
    }
}

/// `val` reduced to its `count` least significant bits.
pub fn low_bits(val: u64, count: u8) -> (r: u64)
    requires
        count <= 64,
    ensures
        r as nat == val as nat % pow2(count as nat),
{
    proof {
        lemma_pow2_pos(count as nat);
    }
    if count == 64 {
        proof {
            lemma2_to64();
            lemma_small_mod(val as nat, pow2(64));
        }
        val
    } else {
        let c: u64 = count as u64;
        proof {
            vstd::bits::lemma_u64_pow2_no_overflow(c as nat);
            vstd::bits::lemma_u64_shl_is_mul(1, c);
        }
        let m: u64 = 1u64 << c;
        let mask: u64 = m - 1;
        proof {
            vstd::bits::lemma_u64_low_bits_mask_is_mod(val, c as nat);
            assert(mask == vstd::bits::low_bits_mask(c as nat) as u64);
        }
        val & mask
    }
}

/// The `c` bits at bit position `p` of `data` (zero past its end).
pub open spec fn read_val(data: Seq<u8>, p: nat, c: nat) -> nat {
    (bytes_value(data) / pow2(p)) % pow2(c)
}

/// The bit position after reading `c` bits at `p`: it stops at the end.
pub open spec fn read_pos(data: Seq<u8>, p: nat, c: nat) -> nat {
    if p + c <= 8 * data.len() {
        p + c
    } else {
        8 * data.len()
    }
}

/// Total number of bits of a list of `(value, bit count)` fields.
pub open spec fn total_bits(xs: Seq<(u64, u8)>) -> nat
    decreases xs.len(),
{
    if xs.len() == 0 {
        0
    } else {
        total_bits(xs.drop_last()) + xs.last().1 as nat
    }
}

/// The integer that a list of fields forms when written one after another,
/// each reduced to its bit count.
pub open spec fn packed(xs: Seq<(u64, u8)>) -> nat
    decreases xs.len(),
{
    if xs.len() == 0 {
        0
    } else {
        packed(xs.drop_last()) + (xs.last().0 as nat % pow2(xs.last().1 as nat)) * pow2(
            total_bits(xs.drop_last()),
        )
    }
}

pub proof fn lemma_packed_bound(xs: Seq<(u64, u8)>)
    ensures
        packed(xs) < pow2(total_bits(xs)),
    decreases xs.len(),
{
    if xs.len() == 0 {
        lemma2_to64();
    } else {
        let pre = xs.drop_last();
        lemma_packed_bound(pre);
        let c = xs.last().1 as nat;
        let v = xs.last().0 as nat % pow2(c);
        lemma_pow2_pos(c);
        vstd::arithmetic::div_mod::lemma_mod_bound(xs.last().0 as int, pow2(c) as int);
        lemma_pow2_adds(total_bits(pre), c);
        assert(packed(pre) + v * pow2(total_bits(pre)) < pow2(total_bits(pre)) * pow2(c))
            by (nonlinear_arith)
            requires
                packed(pre) < pow2(total_bits(pre)),
                v < pow2(c),
        ;
    }
}

/// Fields written after a list add to its value at its end position.
pub proof fn lemma_packed_append(xs: Seq<(u64, u8)>, ys: Seq<(u64, u8)>)
    ensures
        packed(xs + ys) == packed(xs) + pow2(total_bits(xs)) * packed(ys),
        total_bits(xs + ys) == total_bits(xs) + total_bits(ys),
    decreases ys.len(),
{
    if ys.len() == 0 {
        assert(xs + ys =~= xs);
        assert(pow2(total_bits(xs)) * 0 == 0) by (nonlinear_arith);
    } else {
        lemma_packed_append(xs, ys.drop_last());
        assert((xs + ys).drop_last() =~= xs + ys.drop_last());
        assert((xs + ys).last() == ys.last());
        let tx = total_bits(xs);
        let ty = total_bits(ys.drop_last());
        lemma_pow2_adds(tx, ty);
        let v = ys.last().0 as nat % pow2(ys.last().1 as nat);
        assert(pow2(tx) * (packed(ys.drop_last()) + v * pow2(ty)) == pow2(tx) * packed(
            ys.drop_last(),
        ) + v * (pow2(tx) * pow2(ty))) by (nonlinear_arith);
    }
}

/// Bits written as fields and flushed read back: each field, read at its
/// position, gives the value written (its low bits), and every read past the
/// written bits gives zeros.
pub proof fn lemma_bits_roundtrip(xs: Seq<(u64, u8)>, data: Seq<u8>, p: nat, c: nat)
    requires
        bytes_value(data) == packed(xs),
        8 * data.len() >= total_bits(xs),
    ensures
        forall|k: int|
            0 <= k < xs.len() ==> read_val(data, total_bits(xs.take(k)), xs[k].1 as nat) == #[trigger] (
            xs[k].0 as nat % pow2(xs[k].1 as nat)),
        p >= total_bits(xs) ==> read_val(data, p, c) == 0,
{
    assert forall|k: int|
        0 <= k < xs.len() implies read_val(data, total_bits(xs.take(k)), xs[k].1 as nat) == #[trigger] (
    xs[k].0 as nat % pow2(xs[k].1 as nat)) by {
        lemma_read_packed_field(xs, k, data);
    }
    if p >= total_bits(xs) {
        lemma_packed_bound(xs);
        vstd::arithmetic::power2::lemma_pow2_pos(p);
        vstd::arithmetic::power2::lemma_pow2_pos(c);
        if p > total_bits(xs) {
            vstd::arithmetic::power2::lemma_pow2_strictly_increases(total_bits(xs), p);
        }
        vstd::arithmetic::div_mod::lemma_basic_div(packed(xs) as int, pow2(p) as int);
        vstd::arithmetic::div_mod::lemma_small_mod(0, pow2(c));
    }
}

/// Reading fields of the given bit counts one after another from bit `p`,
/// as successive `BitReader::read_bits` calls do: the values read and the bit
/// position after them.
pub open spec fn read_fields(data: Seq<u8>, p: nat, counts: Seq<u8>) -> (Seq<nat>, nat)
    decreases counts.len(),
{
    if counts.len() == 0 {
        (Seq::empty(), p)
    } else {
        let r = read_fields(data, p, counts.drop_last());
        (
            r.0.push(read_val(data, r.1, counts.last() as nat)),
            read_pos(data, r.1, counts.last() as nat),
        )
    }
}

/// The bit counts of a list of fields.
pub open spec fn field_counts(xs: Seq<(u64, u8)>) -> Seq<u8> {
    Seq::new(xs.len(), |i: int| xs[i].1)
}

/// The values of a list of fields, each cut to its bit count.
pub open spec fn field_values(xs: Seq<(u64, u8)>) -> Seq<nat> {
    Seq::new(xs.len(), |i: int| field_value(xs[i]))
}

/// The value of a field cut to its bit count.
pub open spec fn field_value(f: (u64, u8)) -> nat {
    f.0 as nat % pow2(f.1 as nat)
}

/// Reading back, one call after another, the fields that were written and
/// flushed gives each value (its low bits); every read after them gives zero.
pub proof fn lemma_read_fields_roundtrip(xs: Seq<(u64, u8)>, data: Seq<u8>, more: Seq<u8>)
    requires
        bytes_value(data) == packed(xs),
        8 * data.len() >= total_bits(xs),
    ensures
        read_fields(data, 0, field_counts(xs) + more).0 == field_values(xs) + Seq::new(
            more.len(),
            |i: int| 0nat,
        ),
    decreases more.len(),
{
    assert(field_values(xs).len() == xs.len());
    assert(field_counts(xs).len() == xs.len());
    if more.len() == 0 {
        assert(field_counts(xs) + more =~= field_counts(xs));
        lemma_read_fields_prefix(xs, data, xs.len() as int);
        assert(field_counts(xs).take(xs.len() as int) =~= field_counts(xs));
        assert(field_values(xs).take(xs.len() as int) =~= field_values(xs));
        assert(field_values(xs) + Seq::new(0, |i: int| 0nat) =~= field_values(xs));
    } else {
        lemma_read_fields_roundtrip(xs, data, more.drop_last());
        assert((field_counts(xs) + more).drop_last() =~= field_counts(xs) + more.drop_last());
        lemma_read_fields_past(xs, data, more.drop_last());
        let q = read_fields(data, 0, field_counts(xs) + more.drop_last()).1;
        lemma_bits_roundtrip(xs, data, q, more.last() as nat);
        assert((field_values(xs) + Seq::new((more.len() - 1) as nat, |i: int| 0nat)).push(0nat)
            =~= field_values(xs) + Seq::new(more.len(), |i: int| 0nat));
    }
}

/// After the written fields, reading stays at or past their end.
proof fn lemma_read_fields_past(xs: Seq<(u64, u8)>, data: Seq<u8>, more: Seq<u8>)
    requires
        bytes_value(data) == packed(xs),
        8 * data.len() >= total_bits(xs),
    ensures
        read_fields(data, 0, field_counts(xs) + more).1 >= total_bits(xs),
        read_fields(data, 0, field_counts(xs) + more).1 <= 8 * data.len(),
    decreases more.len(),
{
    if more.len() == 0 {
        assert(field_counts(xs) + more =~= field_counts(xs));
        lemma_read_fields_prefix(xs, data, xs.len() as int);
        assert(field_counts(xs).take(xs.len() as int) =~= field_counts(xs));
        assert(xs.take(xs.len() as int) =~= xs);
    } else {
        assert((field_counts(xs) + more).drop_last() =~= field_counts(xs) + more.drop_last());
        lemma_read_fields_past(xs, data, more.drop_last());
    }
}

/// The first `k` fields read back, and reading ends at their end.
proof fn lemma_read_fields_prefix(xs: Seq<(u64, u8)>, data: Seq<u8>, k: int)
    requires
        bytes_value(data) == packed(xs),
        8 * data.len() >= total_bits(xs),
        0 <= k <= xs.len(),
    ensures
        read_fields(data, 0, field_counts(xs).take(k)) == (
            field_values(xs).take(k),
            total_bits(xs.take(k)),
        ),
        total_bits(xs.take(k)) <= total_bits(xs),
    decreases k,
{
    assert(field_values(xs).len() == xs.len());
    assert(field_counts(xs).len() == xs.len());
    if k == 0 {
        assert(field_counts(xs).take(0) =~= Seq::<u8>::empty());
        assert(field_values(xs).take(0) =~= Seq::<nat>::empty());
        assert(xs.take(0) =~= Seq::<(u64, u8)>::empty());
        lemma_total_bits_prefix(xs, 0);
    } else {
        lemma_read_fields_prefix(xs, data, k - 1);
        assert(field_counts(xs).take(k).drop_last() =~= field_counts(xs).take(k - 1));
        lemma_read_packed_field(xs, k - 1, data);
        assert(field_values(xs)[k - 1] == field_value(xs[k - 1]));
        assert(field_counts(xs).take(k).last() == xs[k - 1].1);
        assert(field_values(xs).take(k - 1).push(field_values(xs)[k - 1]) =~= field_values(
            xs,
        ).take(k));
        lemma_total_bits_prefix(xs, k);
    }
}

/// The bits of a prefix are at most those of the whole list.
proof fn lemma_total_bits_prefix(xs: Seq<(u64, u8)>, k: int)
    requires
        0 <= k <= xs.len(),
    ensures
        total_bits(xs.take(k)) <= total_bits(xs),
    decreases xs.len() - k,
{
    if k < xs.len() {
        lemma_total_bits_prefix(xs, k + 1);
        assert(xs.take(k + 1).drop_last() =~= xs.take(k));
    } else {
        assert(xs.take(k) =~= xs);
    }
}

/// Reading the fields of a packed list back one by one at their positions.
pub proof fn lemma_read_packed_field(xs: Seq<(u64, u8)>, k: int, data: Seq<u8>)
    requires
        0 <= k < xs.len(),
        bytes_value(data) == packed(xs),
        8 * data.len() >= total_bits(xs),
    ensures
        read_val(data, total_bits(xs.take(k)), xs[k].1 as nat) == xs[k].0 as nat % pow2(
            xs[k].1 as nat,
        ),
        read_pos(data, total_bits(xs.take(k)), xs[k].1 as nat) == total_bits(xs.take(k + 1)),
{
    let pre = xs.take(k);
    let one = seq![xs[k]];
    let post = xs.skip(k + 1);
    assert(xs =~= pre + (one + post));
    assert(xs.take(k + 1) =~= pre + one);
    lemma_packed_append(pre, one + post);
    lemma_packed_append(one, post);
    lemma_packed_append(pre, one);
    assert(one.drop_last() =~= Seq::<(u64, u8)>::empty());
    let c = xs[k].1 as nat;
    let e = xs[k].0 as nat % pow2(c);
    lemma2_to64();
    assert(packed(one) == e) by {
        assert(packed(one.drop_last()) == 0);
        assert(total_bits(one.drop_last()) == 0);
        assert(one.last() == xs[k]);
        assert(pow2(0) == 1);
        assert(e * 1 == e) by (nonlinear_arith);
    }
    assert(total_bits(one) == c);
    let p = total_bits(pre);
    lemma_packed_bound(pre);
    lemma_pow2_pos(p);
    lemma_pow2_pos(c);
    let rest = packed(post);
    let n = packed(xs);
    assert(n == packed(pre) + pow2(p) * (e + pow2(c) * rest));
    assert(n == (e + pow2(c) * rest) * pow2(p) + packed(pre)) by (nonlinear_arith)
        requires
            n == packed(pre) + pow2(p) * (e + pow2(c) * rest),
    ;
    lemma_fundamental_div_mod_converse(n as int, pow2(p) as int, (e + pow2(c) * rest) as int, packed(pre) as int);
    vstd::arithmetic::div_mod::lemma_mod_bound(xs[k].0 as int, pow2(c) as int);
    assert(e + pow2(c) * rest == rest * pow2(c) + e) by (nonlinear_arith);
    lemma_fundamental_div_mod_converse((e + pow2(c) * rest) as int, pow2(c) as int, rest as int, e as int);
    lemma_packed_append(xs.take(k + 1), post);
    assert(xs =~= xs.take(k + 1) + post);
}

pub struct BitWriter {
    /// The complete bytes written so far.
    pub bytes: Vec<u8>,
    /// The pending bits of an incomplete byte.
    pub acc: u128,
    /// How many bits `acc` holds.
    pub bit_count: u8,
}

impl BitWriter {
    pub closed spec fn wf(&self) -> bool {
        self.bit_count < 8 && self.acc < pow2(self.bit_count as nat)
    }

    /// The integer formed by every bit written so far.
    pub closed spec fn value(&self) -> nat {
        bytes_value(self.bytes@) + pow256(self.bytes@.len()) * (self.acc as nat)
    }

    /// The number of bits written so far.
    pub closed spec fn bit_len(&self) -> nat {
        8 * self.bytes@.len() + self.bit_count as nat
    }

    /// The bytes already complete: the low `bit_len() / 8` bytes of the value,
    /// least significant first.
    pub open spec fn complete_bytes(&self) -> Seq<u8> {
        le_bytes(self.value() % pow256(self.bit_len() / 8), self.bit_len() / 8)
    }

    /// `bytes` holds exactly the complete bytes of what was written.
    proof fn lemma_complete_bytes(&self)
        requires
            self.wf(),
        ensures
            self.bytes@ == self.complete_bytes(),
    {
        let n = self.bytes@.len();
        assert(self.bit_len() / 8 == n);
        lemma_bytes_value_bound(self.bytes@);
        let b = bytes_value(self.bytes@);
        let p = pow256(n);
        let a = self.acc as nat;
        assert((b + p * a) % p == b) by {
            assert(b + p * a == a * p + b) by (nonlinear_arith);
            lemma_fundamental_div_mod_converse((b + p * a) as int, p as int, a as int, b as int);
        }
        lemma_le_bytes_of_value(self.bytes@);
    }

    pub fn new() -> (w: Self)
        ensures
            w.wf(),
            w.value() == 0,
            w.bit_len() == 0,
            w.bytes@ == Seq::<u8>::empty(),
    {
        proof {
            lemma2_to64();
        }
        BitWriter { bytes: Vec::with_capacity(256), acc: 0, bit_count: 0 }
    }

    pub fn with_capacity(capacity: usize) -> (w: Self)
        ensures
            w.wf(),
            w.value() == 0,
            w.bit_len() == 0,
            w.bytes@ == Seq::<u8>::empty(),
    {
        proof {
            lemma2_to64();
        }
        BitWriter { bytes: Vec::with_capacity(capacity), acc: 0, bit_count: 0 }
    }

    /// Appends the `count` least significant bits of `val`.
    pub fn write_bits(&mut self, val: u64, count: u8)
        requires
            old(self).wf(),
            count <= 64,
        ensures
            final(self).wf(),
            final(self).value() == old(self).value() + (val as nat % pow2(count as nat)) * pow2(
                old(self).bit_len(),
            ),
            final(self).bit_len() == old(self).bit_len() + count,
            final(self).bytes@ == final(self).complete_bytes(),
    {
        proof {
            lemma_pow256_is_pow2(self.bytes@.len());
            lemma_pow2_adds(8 * self.bytes@.len(), self.bit_count as nat);
            lemma_pow2_pos(count as nat);
        }
        if count == 0 {
            proof {
                lemma2_to64();
                assert(val as nat % 1 == 0);
                let k = pow2(old(self).bit_len());
                assert(0 * k == 0) by (nonlinear_arith);
                self.lemma_complete_bytes();
            }
            return;
        }
        let clean: u64 = low_bits(val, count);
        let bc: u8 = self.bit_count;
        let acc0: u128 = self.acc;
        proof {
            lemma2_to64();
            lemma_pow2_adds(bc as nat, count as nat);
            vstd::arithmetic::power2::lemma_pow2_strictly_increases(bc as nat, 8);
            lemma_pow2_pos(bc as nat);
            assert(clean as u128 * pow2(bc as nat) <= u128::MAX) by (nonlinear_arith)
                requires
                    clean < 0x1_0000_0000_0000_0000,
                    pow2(bc as nat) < 256,
            ;
            lemma_u128_shl_is_mul(clean as u128, bc as u128);
            lemma_u128_shl_is_mul(1, bc as u128);
        }
        let sh: u128 = (clean as u128) << (bc as u128);
        assert(acc0 | sh == acc0 + sh) by (bit_vector)
            requires
                acc0 < (1u128 << (bc as u128)),
                sh == (clean as u128) << (bc as u128),
                bc < 8,
        ;
        self.acc = acc0 | sh;
        self.bit_count = bc + count;
        proof {
            let c = clean as nat;
            assert(acc0 + c * pow2(bc as nat) < pow2(bc as nat + count as nat)) by (nonlinear_arith)
                requires
                    acc0 < pow2(bc as nat),
                    c < pow2(count as nat),
                    pow2(bc as nat + count as nat) == pow2(bc as nat) * pow2(count as nat),
            ;
            let l = self.bytes@.len();
            assert(pow256(l) * (acc0 + c * pow2(bc as nat)) == pow256(l) * acc0 + c * (pow256(l)
                * pow2(bc as nat))) by (nonlinear_arith);
        }
        let ghost target = old(self).value() + (val as nat % pow2(count as nat)) * pow2(
            old(self).bit_len(),
        );
        let ghost target_len = old(self).bit_len() + count;
        while self.bit_count >= 8
            invariant
                self.bit_count < 72,
                self.acc < pow2(self.bit_count as nat),
                bytes_value(self.bytes@) + pow256(self.bytes@.len()) * self.acc == target,
                8 * self.bytes@.len() + self.bit_count == target_len,
            decreases self.bit_count,
        {
            let a: u128 = self.acc;
            #[verifier::truncate]
            let b: u8 = (a & 0xFF) as u8;
            assert(b == a % 256 && a >> 8 == a / 256) by (bit_vector)
                requires
                    b == (a & 0xFF) as u8,
            ;
            let ghost old_bytes = self.bytes@;
            self.bytes.push(b);
            assert(self.bytes@ =~= old_bytes + seq![b]);
            self.acc = a >> 8;
            self.bit_count = self.bit_count - 8;
            proof {
                let l = old_bytes.len();
                lemma_bytes_value_append(old_bytes, seq![b]);
                lemma_bytes_value_single(b);
                assert(pow256(l + 1) == 256 * pow256(l));
                assert(a == 256 * (a / 256) + a % 256);
                assert(pow256(l) * a == pow256(l) * (a % 256) + pow256(l + 1) * (a / 256))
                    by (nonlinear_arith)
                    requires
                        a == 256 * (a / 256) + a % 256,
                        pow256(l + 1) == 256 * pow256(l),
                ;
                lemma_pow2_adds(self.bit_count as nat, 8);
                lemma2_to64();
                assert(a / 256 < pow2(self.bit_count as nat)) by (nonlinear_arith)
                    requires
                        a < pow2(self.bit_count as nat + 8),
                        pow2(self.bit_count as nat + 8) == pow2(self.bit_count as nat) * 256,
                ;
            }
        }
        proof {
            self.lemma_complete_bytes();
        }
    }

    /// Flushes the pending bits (zero-padded to a whole byte) and returns all bytes.
    pub fn finish(self) -> (out: Vec<u8>)
        requires
            self.wf(),
        ensures
            bytes_value(out@) == self.value(),
            8 * out@.len() >= self.bit_len(),
            8 * out@.len() < self.bit_len() + 8,
    {
        let mut w = self;
        if w.bit_count > 0 {
            let a: u128 = w.acc;
            proof {
                vstd::arithmetic::power2::lemma_pow2_strictly_increases(w.bit_count as nat, 8);
                lemma2_to64();
            }
            #[verifier::truncate]
            let b: u8 = (a & 0xFF) as u8;
            assert(b == a) by (bit_vector)
                requires
                    b == (a & 0xFF) as u8,
                    a < 256,
            ;
            let ghost old_bytes = w.bytes@;
            w.bytes.push(b);
            assert(w.bytes@ =~= old_bytes + seq![b]);
            proof {
                lemma_bytes_value_append(old_bytes, seq![b]);
                lemma_bytes_value_single(b);
            }
            w.acc = 0;
            w.bit_count = 0;
            proof {
                assert(bytes_value(w.bytes@) == bytes_value(old_bytes) + pow256(old_bytes.len()) * (
                b as nat));
            }
        } else {
            proof {
                lemma2_to64();
                assert(w.acc == 0);
                let k = pow256(w.bytes@.len());
                assert(k * 0 == 0) by (nonlinear_arith);
            }
        }
        w.bytes
    }
}

impl Default for BitWriter {
    fn default() -> (w: Self)
        ensures
            w.wf(),
            w.value() == 0,
            w.bit_len() == 0,
    {
        Self::new()
    }
}

pub struct BitReader<'a> {
    pub bytes: &'a [u8],
    pub pos: usize,
    acc: u128,
    bit_count: u8,
}

impl<'a> BitReader<'a> {
    pub closed spec fn wf(&self) -> bool {
        &&& self.pos <= self.bytes@.len()
        &&& self.bit_count < 8
        &&& self.bit_count <= 8 * self.pos
        &&& bytes_value(self.bytes@) / pow2(self.bit_pos()) == self.acc + pow2(
            self.bit_count as nat,
        ) * bytes_value(self.bytes@.skip(self.pos as int))
        &&& self.acc < pow2(self.bit_count as nat)
    }

    /// The bytes being read.
    pub closed spec fn data(&self) -> Seq<u8> {
        self.bytes@
    }

    /// The number of bits consumed so far.
    pub closed spec fn bit_pos(&self) -> nat {
        (8 * self.pos - self.bit_count) as nat
    }

    pub fn new(bytes: &'a [u8]) -> (r: Self)
        ensures
            r.wf(),
            r.data() == bytes@,
            r.bit_pos() == 0,
    {
        proof {
            lemma2_to64();
            assert(bytes@.skip(0) =~= bytes@);
            assert(bytes_value(bytes@) / 1 == bytes_value(bytes@));
        }
        BitReader { bytes, pos: 0, acc: 0, bit_count: 0 }
    }

    pub proof fn lemma_bit_pos_bound(&self)
        requires
            self.wf(),
        ensures
            self.bit_pos() <= 8 * self.data().len(),
    {
    }

    /// Reads the next `count` bits (zero once the bytes run out).
    pub fn read_bits(&mut self, count: u8) -> (val: u64)
        requires
            old(self).wf(),
            count <= 64,
        ensures
            final(self).wf(),
            final(self).data() == old(self).data(),
            val as nat == read_val(old(self).data(), old(self).bit_pos(), count as nat),
            final(self).bit_pos() == read_pos(old(self).data(), old(self).bit_pos(), count as nat),
    {
        let ghost n = bytes_value(self.bytes@);
        let ghost p0 = self.bit_pos();
        let ghost r = n / pow2(p0);
        proof {
            lemma_pow2_pos(count as nat);
            lemma_pow2_pos(p0);
        }
        if count == 0 {
            proof {
                lemma2_to64();
            }
            return 0;
        }
        let mut exhausted: bool = false;
        while self.bit_count < count
            invariant_except_break
                !exhausted,
            invariant
                count <= 64,
                self.bytes == old(self).bytes,
                self.pos <= self.bytes@.len(),
                self.bit_count < count + 8,
                r == self.acc + pow2(self.bit_count as nat) * bytes_value(
                    self.bytes@.skip(self.pos as int),
                ),
                self.acc < pow2(self.bit_count as nat),
                p0 + self.bit_count == 8 * self.pos,
            ensures
                self.bytes == old(self).bytes,
                self.pos <= self.bytes@.len(),
                self.bit_count < count + 8,
                r == self.acc + pow2(self.bit_count as nat) * bytes_value(
                    self.bytes@.skip(self.pos as int),
                ),
                self.acc < pow2(self.bit_count as nat),
                p0 + self.bit_count == 8 * self.pos,
                exhausted ==> self.pos == self.bytes@.len() && self.bit_count < count,
                !exhausted ==> self.bit_count >= count,
            decreases self.bytes@.len() - self.pos,
        {
            if self.pos < self.bytes.len() {
                let b: u8 = self.bytes[self.pos];
                let bc: u8 = self.bit_count;
                let acc0: u128 = self.acc;
                proof {
                    lemma2_to64();
                    vstd::arithmetic::power2::lemma_pow2_strictly_increases(bc as nat, 64);
                    lemma_pow2_pos(bc as nat);
                    assert(b as u128 * pow2(bc as nat) <= u128::MAX) by (nonlinear_arith)
                        requires
                            b < 256,
                            pow2(bc as nat) < 0x1_0000_0000_0000_0000,
                    ;
                    lemma_u128_shl_is_mul(b as u128, bc as u128);
                    lemma_u128_shl_is_mul(1, bc as u128);
                }
                let sh: u128 = (b as u128) << (bc as u128);
                assert(acc0 | sh == acc0 + sh) by (bit_vector)
                    requires
                        acc0 < (1u128 << (bc as u128)),
                        sh == (b as u128) << (bc as u128),
                        bc < 64,
                ;
                self.acc = acc0 | sh;
                self.pos = self.pos + 1;
                self.bit_count = bc + 8;
                proof {
                    let s = self.bytes@.skip(self.pos - 1);
                    assert(s.drop_first() =~= self.bytes@.skip(self.pos as int));
                    assert(s[0] == b);
                    let rest = bytes_value(self.bytes@.skip(self.pos as int));
                    lemma_pow2_adds(bc as nat, 8);
                    assert(r == acc0 + pow2(bc as nat) * (b + 256 * rest));
                    assert(pow2(bc as nat) * (b + 256 * rest) == b * pow2(bc as nat) + pow2(
                        bc as nat + 8,
                    ) * rest) by (nonlinear_arith)
                        requires
                            pow2(bc as nat + 8) == pow2(bc as nat) * 256,
                    ;
                    assert(acc0 + b * pow2(bc as nat) < pow2(bc as nat + 8)) by (nonlinear_arith)
                        requires
                            acc0 < pow2(bc as nat),
                            b < 256,
                            pow2(bc as nat + 8) == pow2(bc as nat) * 256,
                    ;
                }
            } else {
                exhausted = true;
                break;
            }
        }
        let acc1: u128 = self.acc;
        let bc1: u8 = self.bit_count;
        let low: u64 = (acc1 % 0x1_0000_0000_0000_0000u128) as u64;
        let val: u64 = low_bits(low, count);
        proof {
            lemma2_to64();
            vstd::arithmetic::power2::lemma_pow2_strictly_increases(count as nat, 65);
            lemma_pow2_adds(count as nat, (64 - count) as nat);
            assert(pow2(64) == pow2(count as nat) * pow2((64 - count) as nat));
            lemma_pow2_pos((64 - count) as nat);
            lemma_mod_mod(acc1 as int, pow2(count as nat) as int, pow2((64 - count) as nat) as int);
            let rest = bytes_value(self.bytes@.skip(self.pos as int));
            if exhausted {
                assert(self.bytes@.skip(self.pos as int).len() == 0);
                assert(rest == 0);
                assert(pow2(bc1 as nat) * rest == 0) by (nonlinear_arith)
                    requires
                        rest == 0,
                ;
                assert(r == acc1);
            } else {
                lemma_pow2_adds(count as nat, (bc1 - count) as nat);
                let k = pow2((bc1 - count) as nat) * rest;
                assert(r == acc1 + pow2(count as nat) * k) by (nonlinear_arith)
                    requires
                        r == acc1 + pow2(bc1 as nat) * rest,
                        pow2(bc1 as nat) == pow2(count as nat) * pow2((bc1 - count) as nat),
                        k == pow2((bc1 - count) as nat) * rest,
                ;
                vstd::arithmetic::div_mod::lemma_mod_multiples_vanish(
                    k as int,
                    acc1 as int,
                    pow2(count as nat) as int,
                );
            }
            assert(val as nat == r % pow2(count as nat));
        }
        let c128: u128 = count as u128;
        proof {
            vstd::bits::lemma_u128_shr_is_div(acc1, c128);
        }
        self.acc = acc1 >> c128;
        self.bit_count = if exhausted {
            0
        } else {
            bc1 - count
        };
        proof {
            lemma_div_denominator(n as int, pow2(p0) as int, pow2(count as nat) as int);
            lemma_pow2_adds(p0, count as nat);
            lemma_bytes_value_bound(self.bytes@);
            lemma_pow256_is_pow2(self.bytes@.len());
            if exhausted {
                // Everything was loaded and fewer than `count` bits remained.
                vstd::arithmetic::power2::lemma_pow2_strictly_increases(bc1 as nat, count as nat);
                lemma_small_mod(acc1 as nat, pow2(count as nat));
                vstd::arithmetic::div_mod::lemma_basic_div(acc1 as int, pow2(count as nat) as int);
                assert(self.bytes@.skip(self.pos as int).len() == 0);
                lemma_pow2_adds(p0, bc1 as nat);
                assert(n / pow2(8 * self.bytes@.len()) == 0) by {
                    vstd::arithmetic::div_mod::lemma_basic_div(
                        n as int,
                        pow2(8 * self.bytes@.len()) as int,
                    );
                }
                lemma2_to64();
            } else {
                let rest = bytes_value(self.bytes@.skip(self.pos as int));
                let m = (bc1 - count) as nat;
                lemma_pow2_adds(count as nat, m);
                let q = acc1 as nat / pow2(count as nat);
                let rm = acc1 as nat % pow2(count as nat);
                vstd::arithmetic::div_mod::lemma_fundamental_div_mod(
                    acc1 as int,
                    pow2(count as nat) as int,
                );
                vstd::arithmetic::div_mod::lemma_mod_bound(acc1 as int, pow2(count as nat) as int);
                assert(r == rm + pow2(count as nat) * (q + pow2(m) * rest)) by (nonlinear_arith)
                    requires
                        r == acc1 + pow2(bc1 as nat) * rest,
                        acc1 == pow2(count as nat) * q + rm,
                        pow2(bc1 as nat) == pow2(count as nat) * pow2(m),
                ;
                assert(r == (q + pow2(m) * rest) * pow2(count as nat) + rm) by (nonlinear_arith)
                    requires
                        r == rm + pow2(count as nat) * (q + pow2(m) * rest),
                ;
                lemma_fundamental_div_mod_converse(
                    r as int,
                    pow2(count as nat) as int,
                    (q + pow2(m) * rest) as int,
                    rm as int,
                );
                assert(q < pow2(m)) by (nonlinear_arith)
                    requires
                        acc1 == pow2(count as nat) * q + rm,
                        acc1 < pow2(bc1 as nat),
                        pow2(bc1 as nat) == pow2(count as nat) * pow2(m),
                        rm >= 0,
                        pow2(count as nat) > 0,
                ;
            }
        }
        val
    }
}

} // verus!
