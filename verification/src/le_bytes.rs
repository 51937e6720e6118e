//! Little-endian byte encoding of unsigned integers, shared by every framing
//! routine of the codec.

use vstd::prelude::*;

verus! {

/// The integer that a little-endian byte sequence denotes.
pub open spec fn bytes_value(s: Seq<u8>) -> nat
    decreases s.len(),
{
    if s.len() == 0 {
        0
    } else {
        s[0] as nat + 256 * bytes_value(s.drop_first())
    }
}

/// The `n` least significant bytes of `x`, least significant first.
pub open spec fn le_bytes(x: nat, n: nat) -> Seq<u8>
    decreases n,
{
    if n == 0 {
        Seq::empty()
    } else {
        seq![(x % 256) as u8] + le_bytes(x / 256, (n - 1) as nat)
    }
}

/// `256` to the power `n`.
pub open spec fn pow256(n: nat) -> nat
    decreases n,
{
    if n == 0 {
        1
    } else {
        256 * pow256((n - 1) as nat)
    }
}

pub proof fn lemma_pow256_positive(n: nat)
    ensures
        pow256(n) >= 1,
    decreases n,
{
    if n > 0 {
        lemma_pow256_positive((n - 1) as nat);
    }
}

pub proof fn lemma_le_bytes_len(x: nat, n: nat)
    ensures
        le_bytes(x, n).len() == n,
    decreases n,
{
    if n > 0 {
        lemma_le_bytes_len(x / 256, (n - 1) as nat);
    }
}

/// A sequence of `n` bytes denotes a value below `256^n`.
pub proof fn lemma_bytes_value_bound(s: Seq<u8>)
    ensures
        bytes_value(s) < pow256(s.len()),
    decreases s.len(),
{
    if s.len() > 0 {
        lemma_bytes_value_bound(s.drop_first());
    }
}

/// Encoding the value of a byte sequence with its own length gives it back.
pub proof fn lemma_le_bytes_of_value(s: Seq<u8>)
    ensures
        le_bytes(bytes_value(s), s.len()) == s,
    decreases s.len(),
{
    if s.len() > 0 {
        let v = bytes_value(s);
        let rest = bytes_value(s.drop_first());
        assert(v % 256 == s[0] as nat && v / 256 == rest) by (nonlinear_arith)
            requires
                v == s[0] as nat + 256 * rest,
                s[0] < 256,
        ;
        lemma_le_bytes_of_value(s.drop_first());
        lemma_le_bytes_len(v / 256, (s.len() - 1) as nat);
        assert(le_bytes(v, s.len()) =~= s);
    }
}

/// The value of the `n`-byte encoding of `x` is `x` modulo `256^n`.
pub proof fn lemma_value_of_le_bytes(x: nat, n: nat)
    ensures
        bytes_value(le_bytes(x, n)) == x % pow256(n),
    decreases n,
{
    if n > 0 {
        let m = (n - 1) as nat;
        lemma_value_of_le_bytes(x / 256, m);
        lemma_le_bytes_len(x / 256, m);
        let s = le_bytes(x, n);
        assert(s.drop_first() =~= le_bytes(x / 256, m));
        lemma_pow256_positive(m);
        let p = pow256(m);
        assert((x % 256) + 256 * ((x / 256) % p) == x % (256 * p)) by {
            vstd::arithmetic::div_mod::lemma_breakdown(x as int, 256, p as int);
        }
    }
}

/// A value below `256^n` survives an `n`-byte encoding.
pub proof fn lemma_le_bytes_roundtrip(x: nat, n: nat)
    requires
        x < pow256(n),
    ensures
        bytes_value(le_bytes(x, n)) == x,
        le_bytes(x, n).len() == n,
{
    lemma_value_of_le_bytes(x, n);
    lemma_le_bytes_len(x, n);
    vstd::arithmetic::div_mod::lemma_small_mod(x, pow256(n));
}

/// The value of a concatenation.
pub proof fn lemma_bytes_value_append(a: Seq<u8>, b: Seq<u8>)
    ensures
        bytes_value(a + b) == bytes_value(a) + pow256(a.len()) * bytes_value(b),
    decreases a.len(),
{
    if a.len() == 0 {
        assert(a + b =~= b);
    } else {
        lemma_bytes_value_append(a.drop_first(), b);
        assert((a + b).drop_first() =~= a.drop_first() + b);
        assert((a + b)[0] == a[0]);
        assert(pow256(a.len()) == 256 * pow256((a.len() - 1) as nat));
        let p = pow256((a.len() - 1) as nat);
        assert(256 * (bytes_value(a.drop_first()) + p * bytes_value(b)) == 256
            * bytes_value(a.drop_first()) + (256 * p) * bytes_value(b)) by (nonlinear_arith);
    }
}

pub proof fn lemma_pow256_values()
    ensures
        pow256(0) == 1,
        pow256(1) == 256,
        pow256(2) == 0x1_0000,
        pow256(4) == 0x1_0000_0000,
        pow256(8) == 0x1_0000_0000_0000_0000,
{
    reveal_with_fuel(pow256, 9);
}

/// Appends the `n` least significant bytes of `x` to `out`, least significant first.
pub fn push_le(out: &mut Vec<u8>, x: u64, n: usize)
    requires
        n <= 8,
    ensures
        final(out)@ == old(out)@ + le_bytes(x as nat, n as nat),
{
    let mut v: u64 = x;
    let mut i: usize = 0;
    while i < n
        invariant
            i <= n,
            out@ + le_bytes(v as nat, (n - i) as nat) == old(out)@ + le_bytes(x as nat, n as nat),
        decreases n - i,
    {
        proof {
            let m = (n - i) as nat;
            assert(le_bytes(v as nat, m) =~= seq![(v % 256) as u8] + le_bytes(
                (v / 256) as nat,
                (m - 1) as nat,
            ));
        }
        out.push((v % 256) as u8);
        v = v / 256;
        i = i + 1;
        proof {
            assert(out@ + le_bytes(v as nat, (n - i) as nat) =~= old(out)@ + le_bytes(
                x as nat,
                n as nat,
            ));
        }
    }
    proof {
        assert(le_bytes(v as nat, 0) =~= Seq::<u8>::empty());
        assert(out@ =~= out@ + le_bytes(v as nat, 0));
    }
}

/// Reads the `n`-byte little-endian integer that starts at `data[off]`.
pub fn read_le(data: &[u8], off: usize, n: usize) -> (v: u64)
    requires
        n <= 8,
        off + n <= data@.len(),
    ensures
        v as nat == bytes_value(data@.subrange(off as int, off + n)),
{
    let mut v: u64 = 0;
    let mut j: usize = n;
    while j > 0
        invariant
            j <= n <= 8,
            off + n <= data.len(),
            v as nat == bytes_value(data@.subrange(off + j, off + n)),
            v < pow256((n - j) as nat),
        decreases j,
    {
        j = j - 1;
        let b = data[off + j];
        proof {
            let s = data@.subrange(off + j, off + n);
            assert(s.drop_first() =~= data@.subrange(off + j + 1, off + n));
            assert(s[0] == b);
            lemma_pow256_values();
            assert(pow256((n - j) as nat) == 256 * pow256((n - j - 1) as nat));
            assert(pow256((n - j - 1) as nat) <= pow256(7)) by {
                lemma_pow256_mono((n - j - 1) as nat, 7);
            }
            reveal_with_fuel(pow256, 8);
        }
        v = (b as u64) + 256 * v;
    }
    v
}

pub proof fn lemma_pow256_mono(a: nat, b: nat)
    requires
        a <= b,
    ensures
        pow256(a) <= pow256(b),
    decreases b,
{
    if a < b {
        lemma_pow256_mono(a, (b - 1) as nat);
        lemma_pow256_positive((b - 1) as nat);
    }
}

/// Appends all of `src` to `out`.
pub fn push_slice(out: &mut Vec<u8>, src: &[u8])
    ensures
        final(out)@ == old(out)@ + src@,
{
    let mut i: usize = 0;
    while i < src.len()
        invariant
            i <= src@.len(),
            out@ == old(out)@ + src@.subrange(0, i as int),
        decreases src@.len() - i,
    {
        out.push(src[i]);
        i = i + 1;
        proof {
            assert(out@ =~= old(out)@ + src@.subrange(0, i as int));
        }
    }
    proof {
        assert(src@.subrange(0, i as int) =~= src@);
    }
}

} // verus!

verus! {

pub proof fn lemma_bytes_value_single(b: u8)
    ensures
        bytes_value(seq![b]) == b as nat,
{
    assert(seq![b].drop_first() =~= Seq::<u8>::empty());
    assert(bytes_value(Seq::<u8>::empty()) == 0);
}

} // verus!
