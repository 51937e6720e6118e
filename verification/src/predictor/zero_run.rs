//! Zero-run packing of residual symbols.
//!
//! Residual symbols are `0` (a zero residual), `1..=127` (small residuals)
//! and `128..=192` (bit-width prefixes). A run of two to sixty-four zero
//! residuals is packed into the single symbol `191 + run`, so `193` stands
//! for two zeros and `255` for sixty-four.

use vstd::prelude::*;

verus! {

/// The longest run that one symbol packs.
pub const MAX_ZERO_RUN: usize = 64;

/// The number of leading zero symbols of `u`, at most `cap`.
pub open spec fn zero_prefix(u: Seq<u8>, cap: nat) -> nat
    decreases cap,
{
    if cap == 0 || u.len() == 0 || u[0] != 0 {
        0
    } else {
        1 + zero_prefix(u.skip(1), (cap - 1) as nat)
    }
}

/// The leading zeros are zeros, bounded by the cap and the length.
pub proof fn lemma_zero_prefix(u: Seq<u8>, cap: nat)
    ensures
        zero_prefix(u, cap) <= cap,
        zero_prefix(u, cap) <= u.len(),
        forall|k: int| 0 <= k < zero_prefix(u, cap) ==> u[k] == 0,
        zero_prefix(u, cap) < cap && zero_prefix(u, cap) < u.len() ==> u[zero_prefix(u, cap) as int]
            != 0,
    decreases cap,
{
    if cap > 0 && u.len() > 0 && u[0] == 0 {
        lemma_zero_prefix(u.skip(1), (cap - 1) as nat);
        let r = zero_prefix(u, cap);
        assert forall|k: int| 0 <= k < r implies u[k] == 0 by {
            if k > 0 {
                assert(u.skip(1)[k - 1] == u[k]);
            }
        }
        if r < u.len() && r < cap {
            assert(u.skip(1)[r - 1] == u[r as int]);
        }
    }
}

/// A run found by scanning is the run that `zero_prefix` counts.
pub proof fn lemma_zero_prefix_exact(u: Seq<u8>, cap: nat, r: nat)
    requires
        r <= cap,
        r <= u.len(),
        forall|k: int| 0 <= k < r ==> u[k] == 0,
        r == cap || r == u.len() || u[r as int] != 0,
    ensures
        zero_prefix(u, cap) == r,
    decreases r,
{
    if r > 0 {
        assert(u[0] == 0);
        assert forall|k: int| 0 <= k < r - 1 implies u.skip(1)[k] == 0 by {
            assert(u.skip(1)[k] == u[k + 1]);
        }
        if r < u.len() && r < cap {
            assert(u.skip(1)[r - 1] == u[r as int]);
        }
        lemma_zero_prefix_exact(u.skip(1), (cap - 1) as nat, (r - 1) as nat);
    }
}

/// Packs runs of two or more zero symbols, from the front.
pub open spec fn pack_runs(u: Seq<u8>) -> Seq<u8>
    decreases u.len(),
{
    if u.len() == 0 {
        Seq::empty()
    } else {
        let r = zero_prefix(u, 64);
        proof {
            lemma_zero_prefix(u, 64);
        }
        if r >= 2 {
            seq![(191 + r) as u8] + pack_runs(u.skip(r as int))
        } else {
            seq![u[0]] + pack_runs(u.skip(1))
        }
    }
}

/// The symbols that one packed symbol stands for.
pub open spec fn expand_one(s: u8) -> Seq<u8> {
    if s >= 193 {
        Seq::new((s - 191) as nat, |i: int| 0u8)
    } else {
        seq![s]
    }
}

/// Packed symbols expanded back, one after another.
pub open spec fn expand_runs(s: Seq<u8>) -> Seq<u8>
    decreases s.len(),
{
    if s.len() == 0 {
        Seq::empty()
    } else {
        expand_runs(s.drop_last()) + expand_one(s.last())
    }
}

/// Expansion distributes over concatenation.
pub proof fn lemma_expand_append(a: Seq<u8>, b: Seq<u8>)
    ensures
        expand_runs(a + b) == expand_runs(a) + expand_runs(b),
    decreases b.len(),
{
    if b.len() == 0 {
        assert(a + b =~= a);
        assert(expand_runs(a) + expand_runs(b) =~= expand_runs(a));
    } else {
        assert((a + b).drop_last() =~= a + b.drop_last());
        lemma_expand_append(a, b.drop_last());
        assert(expand_runs(a) + expand_runs(b.drop_last()) + expand_one(b.last()) =~= expand_runs(a)
            + (expand_runs(b.drop_last()) + expand_one(b.last())));
    }
}

/// Symbols that are no run symbols come back from packing unchanged.
pub proof fn lemma_pack_expand(u: Seq<u8>)
    requires
        forall|i: int| 0 <= i < u.len() ==> u[i] <= 192,
    ensures
        expand_runs(pack_runs(u)) == u,
        pack_runs(u).len() <= u.len(),
    decreases u.len(),
{
    if u.len() > 0 {
        lemma_zero_prefix(u, 64);
        let r = zero_prefix(u, 64);
        let k: int = if r >= 2 {
            r as int
        } else {
            1
        };
        let s: u8 = if r >= 2 {
            (191 + r) as u8
        } else {
            u[0]
        };
        let rest = u.skip(k);
        lemma_pack_expand(rest);
        lemma_expand_append(seq![s], pack_runs(rest));
        assert(seq![s].drop_last() =~= Seq::<u8>::empty());
        assert(expand_runs(Seq::<u8>::empty()) == Seq::<u8>::empty());
        assert(seq![s].last() == s);
        assert(expand_runs(seq![s]) =~= expand_one(s));
        assert(expand_one(s) =~= u.take(k));
        assert(u.take(k) + rest =~= u);
    }
}

/// Appends the packed form of `units`.
pub fn pack_zero_runs(units: &[u8], out: &mut Vec<u8>)
    ensures
        final(out)@ == old(out)@ + pack_runs(units@),
{
    let n = units.len();
    let mut i: usize = 0;
    proof {
        assert(units@.skip(0) =~= units@);
    }
    while i < n
        invariant
            i <= n == units@.len(),
            old(out)@ + pack_runs(units@) == out@ + pack_runs(units@.skip(i as int)),
        decreases n - i,
    {
        let mut run: usize = 0;
        while i + run < n && units[i + run] == 0 && run < MAX_ZERO_RUN
            invariant
                i < n == units@.len(),
                i + run <= n,
                run <= 64,
                forall|j: int| i <= j < i + run ==> units@[j] == 0,
            decreases 64 - run,
        {
            run = run + 1;
        }
        let ghost rest = units@.skip(i as int);
        proof {
            assert forall|k: int| 0 <= k < run implies rest[k] == 0 by {
                assert(rest[k] == units@[i + k]);
                assert(units@[i + k] == 0);
            }
            if run < 64 && run < rest.len() {
                assert(rest[run as int] == units@[i + run]);
            }
            lemma_zero_prefix_exact(rest, 64, run as nat);
        }
        let step: usize = if run >= 2 {
            run
        } else {
            1
        };
        if run >= 2 {
            out.push((191 + run) as u8);
        } else {
            out.push(units[i]);
        }
        proof {
            assert(rest.skip(step as int) =~= units@.skip(i + step));
            assert(rest[0] == units@[i as int]);
        }
        i = i + step;
        proof {
            assert(out@ + pack_runs(units@.skip(i as int)) =~= old(out)@ + pack_runs(units@));
        }
    }
    proof {
        assert(units@.skip(n as int) =~= Seq::<u8>::empty());
        assert(out@ + Seq::<u8>::empty() =~= out@);
    }
}

/// The number of symbols that `symbols` stand for once expanded.
pub fn expanded_len(symbols: &[u8]) -> (n: u64)
    requires
        symbols@.len() < 0x1_0000_0000,
    ensures
        n as nat == expand_runs(symbols@).len(),
{
    let mut total: u64 = 0;
    let mut i: usize = 0;
    proof {
        assert(symbols@.take(0) =~= Seq::<u8>::empty());
    }
    while i < symbols.len()
        invariant
            i <= symbols@.len() < 0x1_0000_0000,
            total as nat == expand_runs(symbols@.take(i as int)).len(),
            total <= 64 * i,
        decreases symbols@.len() - i,
    {
        let s = symbols[i];
        proof {
            assert(symbols@.take(i + 1).drop_last() =~= symbols@.take(i as int));
        }
        if s >= 193 {
            total = total + (s as u64 - 191);
        } else {
            total = total + 1;
        }
        i = i + 1;
    }
    proof {
        assert(symbols@.take(symbols@.len() as int) =~= symbols@);
    }
    total
}

/// The symbols that `symbols` stand for.
pub fn expand_zero_runs(symbols: &[u8]) -> (units: Vec<u8>)
    ensures
        units@ == expand_runs(symbols@),
{
    let mut units: Vec<u8> = Vec::new();
    let mut i: usize = 0;
    proof {
        assert(symbols@.take(0) =~= Seq::<u8>::empty());
    }
    while i < symbols.len()
        invariant
            i <= symbols@.len(),
            units@ == expand_runs(symbols@.take(i as int)),
        decreases symbols@.len() - i,
    {
        let s = symbols[i];
        let ghost before = units@;
        if s >= 193 {
            let count: u8 = s - 191;
            let mut k: u8 = 0;
            while k < count
                invariant
                    k <= count,
                    units@ == before + Seq::new(k as nat, |j: int| 0u8),
                decreases count - k,
            {
                units.push(0);
                k = k + 1;
                proof {
                    assert(units@ =~= before + Seq::new(k as nat, |j: int| 0u8));
                }
            }
        } else {
            units.push(s);
        }
        proof {
            assert(symbols@.take(i + 1).drop_last() =~= symbols@.take(i as int));
            assert(units@ =~= before + expand_one(s));
        }
        i = i + 1;
    }
    proof {
        assert(symbols@.take(symbols@.len() as int) =~= symbols@);
    }
    units
}

} // verus!
