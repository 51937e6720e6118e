//! What the streaming compressor writes decompresses to the samples it was
//! given.

use vstd::prelude::*;
use crate::codec::{decompressed, i64_decompressed, read_blocks, stream_header, stream_tail,
    start_table};
use crate::codec_roundtrip::{lemma_auto_block_shape, lemma_read_blocks_step,
    lemma_le_words_of_samples};
use crate::entropy::adaptive_table::{TableView, lemma_normalized_wf, skewed_raw};
use crate::memory_budget::MemoryBudget;
use crate::stream::MAGIC;
use crate::stream::block_roundtrip::lemma_auto_block_roundtrip;
use crate::stream::block_writer::{auto_block, as_words, words_le};
use crate::streaming::{WriterState, writer_new, writer_header, writer_flush, writer_sample,
    writer_finish, writer_samples};

verus! {

/// The blocks of a chain: each is the samples of a block, its seed sample
/// and its history; the table runs on from one block to the next.
pub open spec fn chain_blocks(bl: Seq<(Seq<i64>, i64, Seq<i64>)>, t: TableView) -> (
    Seq<u8>,
    TableView,
)
    decreases bl.len(),
{
    if bl.len() == 0 {
        (Seq::empty(), t)
    } else {
        let b = auto_block(bl[0].0, bl[0].1, bl[0].2, t);
        let r = chain_blocks(bl.drop_first(), b.1);
        (b.0 + r.0, r.1)
    }
}

/// The samples of a chain of blocks, in order.
pub open spec fn chain_samples(bl: Seq<(Seq<i64>, i64, Seq<i64>)>) -> Seq<i64>
    decreases bl.len(),
{
    if bl.len() == 0 {
        Seq::empty()
    } else {
        bl[0].0 + chain_samples(bl.drop_first())
    }
}

/// Every block of the chain holds one to 65535 samples and a history of three.
pub open spec fn chain_ok(bl: Seq<(Seq<i64>, i64, Seq<i64>)>) -> bool {
    forall|i: int|
        0 <= i < bl.len() ==> 1 <= #[trigger] bl[i].0.len() <= 65535 && bl[i].2.len() == 3
}

/// What a caller does with a streaming compressor.
pub ghost enum WriterEvent {
    Sample(i64),
    Flush,
}

/// The state reached and the bytes written after `events`.
pub open spec fn writer_run(s: WriterState, events: Seq<WriterEvent>) -> (WriterState, Seq<u8>)
    decreases events.len(),
{
    if events.len() == 0 {
        (s, Seq::empty())
    } else {
        let r = writer_run(s, events.drop_last());
        let st = match events.last() {
            WriterEvent::Sample(x) => writer_sample(r.0, x),
            WriterEvent::Flush => writer_flush(r.0),
        };
        (st.0, r.1 + st.1)
    }
}

/// The samples that `events` hand to the compressor.
pub open spec fn event_samples(events: Seq<WriterEvent>) -> Seq<i64>
    decreases events.len(),
{
    if events.len() == 0 {
        Seq::empty()
    } else {
        let pre = event_samples(events.drop_last());
        match events.last() {
            WriterEvent::Sample(x) => pre.push(x),
            WriterEvent::Flush => pre,
        }
    }
}

/// Appending a block to a chain.
proof fn lemma_chain_push(bl: Seq<(Seq<i64>, i64, Seq<i64>)>, x: (Seq<i64>, i64, Seq<i64>), t: TableView)
    ensures
        chain_blocks(bl.push(x), t).0 == chain_blocks(bl, t).0 + auto_block(
            x.0,
            x.1,
            x.2,
            chain_blocks(bl, t).1,
        ).0,
        chain_blocks(bl.push(x), t).1 == auto_block(x.0, x.1, x.2, chain_blocks(bl, t).1).1,
        chain_samples(bl.push(x)) == chain_samples(bl) + x.0,
    decreases bl.len(),
{
    let bx = bl.push(x);
    assert(bx[0] == if bl.len() == 0 {
        x
    } else {
        bl[0]
    });
    if bl.len() == 0 {
        assert(bx.drop_first() =~= Seq::<(Seq<i64>, i64, Seq<i64>)>::empty());
        let b = auto_block(x.0, x.1, x.2, t);
        assert(chain_blocks(bx.drop_first(), b.1) == (Seq::<u8>::empty(), b.1));
        assert(chain_blocks(bx, t) == (b.0 + Seq::<u8>::empty(), b.1));
        assert(b.0 + Seq::<u8>::empty() =~= b.0);
        assert(Seq::<u8>::empty() + b.0 =~= b.0);
        assert(chain_samples(bx.drop_first()) == Seq::<i64>::empty());
        assert(x.0 + Seq::<i64>::empty() =~= x.0);
        assert(Seq::<i64>::empty() + x.0 =~= x.0);
    } else {
        let b = auto_block(bl[0].0, bl[0].1, bl[0].2, t);
        assert(bx.drop_first() =~= bl.drop_first().push(x));
        lemma_chain_push(bl.drop_first(), x, b.1);
        let r = chain_blocks(bl.drop_first(), b.1);
        let bb = auto_block(x.0, x.1, x.2, r.1);
        assert(chain_blocks(bx, t) == (b.0 + chain_blocks(bx.drop_first(), b.1).0, chain_blocks(
            bx.drop_first(),
            b.1,
        ).1));
        assert(b.0 + (r.0 + bb.0) =~= b.0 + r.0 + bb.0);
        assert(bl[0].0 + (chain_samples(bl.drop_first()) + x.0) =~= bl[0].0 + chain_samples(
            bl.drop_first(),
        ) + x.0);
    }
}

/// Reading a chain of blocks gives its samples as words.
proof fn lemma_read_chain(
    c: Seq<u8>,
    off: int,
    bl: Seq<(Seq<i64>, i64, Seq<i64>)>,
    t: TableView,
    out: Seq<u64>,
)
    requires
        chain_ok(bl),
        t.wf(),
        0 <= off,
        off + chain_blocks(bl, t).0.len() <= c.len(),
        c.subrange(off, off + chain_blocks(bl, t).0.len()) == chain_blocks(bl, t).0,
    ensures
        read_blocks(c, off, off + chain_blocks(bl, t).0.len(), t, out) == Ok::<
            (int, Seq<u64>),
            &'static str,
        >((off + chain_blocks(bl, t).0.len(), out + as_words(chain_samples(bl)))),
    decreases bl.len(),
{
    let all = chain_blocks(bl, t).0;
    let limit = off + all.len();
    if bl.len() == 0 {
        assert(out + as_words(Seq::<i64>::empty()) =~= out);
    } else {
        let x = bl[0];
        let b = auto_block(x.0, x.1, x.2, t);
        let rest = chain_blocks(bl.drop_first(), b.1).0;
        let b0 = b.0;
        let next = off + b0.len();
        assert(all == b0 + rest);
        lemma_auto_block_shape(x.0, x.1, x.2, t);
        assert(c.subrange(off, off + b0.len()) == b0) by {
            assert(c.subrange(off, off + b0.len()) =~= all.subrange(0, b0.len() as int));
            assert(all.subrange(0, b0.len() as int) =~= b0);
        }
        lemma_auto_block_roundtrip(x.0, x.1, x.2, t, c, off, out);
        lemma_read_blocks_step(c, off, limit, t, out, next, as_words(x.0), b.1);
        assert(c.subrange(next, next + rest.len()) == rest) by {
            assert(c.subrange(next, next + rest.len()) =~= all.subrange(
                b0.len() as int,
                all.len() as int,
            ));
            assert(all.subrange(b0.len() as int, all.len() as int) =~= rest);
        }
        assert(chain_ok(bl.drop_first())) by {
            assert forall|i: int| 0 <= i < bl.drop_first().len() implies 1
                <= #[trigger] bl.drop_first()[i].0.len() <= 65535 && bl.drop_first()[i].2.len()
                == 3 by {
                assert(bl.drop_first()[i] == bl[i + 1]);
            }
        }
        lemma_read_chain(c, next, bl.drop_first(), b.1, out + as_words(x.0));
        assert(out + as_words(x.0) + as_words(chain_samples(bl.drop_first())) =~= out + as_words(
            chain_samples(bl),
        ));
    }
}

/// What holds of the compressor after any run, but for the bound on its
/// buffer: `out` is what it wrote, `bl` the blocks in it.
pub open spec fn inv_core(
    budget: MemoryBudget,
    s: WriterState,
    out: Seq<u8>,
    bl: Seq<(Seq<i64>, i64, Seq<i64>)>,
) -> bool {
    &&& s.budget == budget
    &&& s.table.wf()
    &&& s.hist.len() == 3
    &&& chain_ok(bl)
    &&& s.buffer.len() <= 65535
    &&& if s.header {
        &&& out == stream_header(budget.profile, 1, 0) + chain_blocks(bl, start_table()).0
        &&& s.table == chain_blocks(bl, start_table()).1
    } else {
        &&& out == Seq::<u8>::empty()
        &&& bl.len() == 0
        &&& s.buffer.len() == 0
        &&& s.table == start_table()
    }
}

/// What holds of the compressor after any run.
pub open spec fn writer_inv(
    budget: MemoryBudget,
    s: WriterState,
    out: Seq<u8>,
    bl: Seq<(Seq<i64>, i64, Seq<i64>)>,
) -> bool {
    &&& inv_core(budget, s, out, bl)
    &&& s.buffer.len() < if budget.block_samples == 0 {
        1
    } else {
        budget.block_samples as int
    }
}

proof fn lemma_inv_header(
    budget: MemoryBudget,
    s: WriterState,
    out: Seq<u8>,
    bl: Seq<(Seq<i64>, i64, Seq<i64>)>,
)
    requires
        inv_core(budget, s, out, bl),
    ensures
        inv_core(budget, writer_header(s).0, out + writer_header(s).1, bl),
        writer_header(s).0.buffer == s.buffer,
        writer_header(s).0.header,
{
    if s.header {
        assert(out + Seq::<u8>::empty() =~= out);
    } else {
        assert(bl =~= Seq::<(Seq<i64>, i64, Seq<i64>)>::empty());
        assert(out + stream_header(budget.profile, 1, 0) =~= stream_header(budget.profile, 1, 0)
            + chain_blocks(bl, start_table()).0);
    }
}

proof fn lemma_inv_flush(
    budget: MemoryBudget,
    s: WriterState,
    out: Seq<u8>,
    bl: Seq<(Seq<i64>, i64, Seq<i64>)>,
) -> (bl2: Seq<(Seq<i64>, i64, Seq<i64>)>)
    requires
        inv_core(budget, s, out, bl),
    ensures
        inv_core(budget, writer_flush(s).0, out + writer_flush(s).1, bl2),
        writer_flush(s).0.buffer.len() == 0,
        writer_flush(s).0.header == s.header,
        chain_samples(bl2) == chain_samples(bl) + s.buffer,
{
    if s.buffer.len() == 0 {
        assert(out + Seq::<u8>::empty() =~= out);
        assert(chain_samples(bl) + s.buffer =~= chain_samples(bl));
        bl
    } else {
        let x = (s.buffer, s.init, s.hist);
        let bl2 = bl.push(x);
        lemma_chain_push(bl, x, start_table());
        lemma_auto_block_shape(s.buffer, s.init, s.hist, s.table);
        assert(chain_ok(bl2)) by {
            assert forall|i: int| 0 <= i < bl2.len() implies 1 <= #[trigger] bl2[i].0.len() <= 65535
                && bl2[i].2.len() == 3 by {
                if i < bl.len() {
                    assert(bl2[i] == bl[i]);
                }
            }
        }
        let f = writer_flush(s);
        assert(out + f.1 =~= stream_header(budget.profile, 1, 0) + chain_blocks(
            bl2,
            start_table(),
        ).0);
        bl2
    }
}

proof fn lemma_inv_sample(
    budget: MemoryBudget,
    s: WriterState,
    out: Seq<u8>,
    bl: Seq<(Seq<i64>, i64, Seq<i64>)>,
    x: i64,
) -> (bl2: Seq<(Seq<i64>, i64, Seq<i64>)>)
    requires
        budget.block_samples <= 65535,
        writer_inv(budget, s, out, bl),
    ensures
        writer_inv(budget, writer_sample(s, x).0, out + writer_sample(s, x).1, bl2),
        chain_samples(bl2) + writer_sample(s, x).0.buffer == chain_samples(bl) + s.buffer.push(x),
{
    let h = writer_header(s);
    lemma_inv_header(budget, s, out, bl);
    let s1 = h.0;
    let o1 = out + h.1;
    let s2 = if s1.buffer.len() == 0 && s1.init == 0 {
        WriterState { init: x, hist: seq![x, x, x], ..s1 }
    } else {
        s1
    };
    let s3 = WriterState { buffer: s2.buffer.push(x), ..s2 };
    assert(inv_core(budget, s3, o1, bl));
    if s3.buffer.len() >= s3.budget.block_samples {
        let bl2 = lemma_inv_flush(budget, s3, o1, bl);
        let f = writer_flush(s3);
        assert(out + (h.1 + f.1) =~= o1 + f.1);
        assert(chain_samples(bl2) + f.0.buffer =~= chain_samples(bl2));
        bl2
    } else {
        bl
    }
}

/// The invariant holds after every run from a fresh compressor.
proof fn lemma_writer_inv(budget: MemoryBudget, events: Seq<WriterEvent>) -> (bl: Seq<
    (Seq<i64>, i64, Seq<i64>),
>)
    requires
        budget.block_samples <= 65535,
    ensures
        writer_inv(
            budget,
            writer_run(writer_new(budget), events).0,
            writer_run(writer_new(budget), events).1,
            bl,
        ),
        event_samples(events) == chain_samples(bl) + writer_run(writer_new(budget), events).0.buffer,
    decreases events.len(),
{
    if events.len() == 0 {
        lemma_normalized_wf(skewed_raw());
        let bl = Seq::<(Seq<i64>, i64, Seq<i64>)>::empty();
        assert(chain_samples(bl) + Seq::<i64>::empty() =~= Seq::<i64>::empty());
        bl
    } else {
        let pre = events.drop_last();
        let bl0 = lemma_writer_inv(budget, pre);
        let r = writer_run(writer_new(budget), pre);
        match events.last() {
            WriterEvent::Sample(x) => {
                let bl2 = lemma_inv_sample(budget, r.0, r.1, bl0, x);
                assert(chain_samples(bl0) + r.0.buffer.push(x) =~= (chain_samples(bl0)
                    + r.0.buffer).push(x));
                bl2
            },
            WriterEvent::Flush => {
                let bl2 = lemma_inv_flush(budget, r.0, r.1, bl0);
                let f = writer_flush(r.0);
                assert(chain_samples(bl2) + f.0.buffer =~= chain_samples(bl2));
                bl2
            },
        }
    }
}

/// Whatever samples and flushes a caller hands a fresh streaming compressor,
/// the bytes it writes, followed by those of `finish`, decompress to the
/// samples, for every block size up to 65535 samples.
#[verifier::spinoff_prover]
#[verifier::rlimit(40)]
pub proof fn lemma_writer_roundtrip(budget: MemoryBudget, events: Seq<WriterEvent>)
    requires
        budget.block_samples <= 65535,
    ensures
        i64_decompressed(
            writer_run(writer_new(budget), events).1 + writer_finish(
                writer_run(writer_new(budget), events).0,
            ),
        ) == Ok::<Seq<i64>, &'static str>(event_samples(events)),
{
    let r = writer_run(writer_new(budget), events);
    let bl = lemma_writer_inv(budget, events);
    let h = writer_header(r.0);
    lemma_inv_header(budget, r.0, r.1, bl);
    let bl2 = lemma_inv_flush(budget, h.0, r.1 + h.1, bl);
    let f = writer_flush(h.0);
    let c = r.1 + writer_finish(r.0);
    assert(c =~= r.1 + h.1 + f.1);
    let hdr = stream_header(budget.profile, 1, 0);
    let blocks = chain_blocks(bl2, start_table()).0;
    assert(c == hdr + blocks);
    assert(c.take(4) =~= MAGIC@);
    assert(c[5] == 1 && c[6] == 0);
    lemma_normalized_wf(skewed_raw());
    assert(c.subrange(7, 7 + blocks.len() as int) =~= blocks);
    lemma_read_chain(c, 7, bl2, start_table(), Seq::empty());
    let samples = chain_samples(bl2);
    assert(samples =~= event_samples(events));
    assert(Seq::<u64>::empty() + as_words(samples) =~= as_words(samples));
    assert(stream_tail(c, c.len() as int, 0) =~= Seq::<u8>::empty());
    assert(decompressed(c) == Ok::<Seq<u8>, &'static str>(
        words_le(as_words(samples)) + Seq::<u8>::empty(),
    ));
    assert(words_le(as_words(samples)) + Seq::<u8>::empty() =~= words_le(as_words(samples)));
    lemma_le_words_of_samples(samples);
}

/// After every sample the compressor holds fewer samples than a block: a
/// full buffer is written out at once.
pub proof fn lemma_writer_flushes(budget: MemoryBudget, events: Seq<WriterEvent>)
    requires
        budget.block_samples <= 65535,
    ensures
        writer_run(writer_new(budget), events).0.buffer.len() < if budget.block_samples == 0 {
            1
        } else {
            budget.block_samples as int
        },
{
    lemma_writer_inv(budget, events);
}


/// Running two lists of events one after the other is running the first,
/// then the second from where the first left the compressor.
pub proof fn lemma_writer_run_append(s: WriterState, a: Seq<WriterEvent>, b: Seq<WriterEvent>)
    ensures
        writer_run(s, a + b) == (
            writer_run(writer_run(s, a).0, b).0,
            writer_run(s, a).1 + writer_run(writer_run(s, a).0, b).1,
        ),
    decreases b.len(),
{
    if b.len() == 0 {
        assert(a + b =~= a);
        assert(writer_run(s, a).1 + Seq::<u8>::empty() =~= writer_run(s, a).1);
    } else {
        assert((a + b).drop_last() =~= a + b.drop_last());
        lemma_writer_run_append(s, a, b.drop_last());
        let r = writer_run(s, a);
        let m = writer_run(r.0, b.drop_last());
        let st = match b.last() {
            WriterEvent::Sample(x) => writer_sample(m.0, x),
            WriterEvent::Flush => writer_flush(m.0),
        };
        assert(r.1 + m.1 + st.1 =~= r.1 + (m.1 + st.1));
    }
}

/// A flush while no sample is buffered writes nothing and changes nothing:
/// whatever events follow, the compressor writes the same bytes and ends in
/// the same state as without that flush.
pub proof fn lemma_idle_flush(s: WriterState, pre: Seq<WriterEvent>, post: Seq<WriterEvent>)
    requires
        writer_run(s, pre).0.buffer.len() == 0,
    ensures
        writer_run(s, pre.push(WriterEvent::Flush) + post) == writer_run(s, pre + post),
{
    let r = writer_run(s, pre);
    assert(pre.push(WriterEvent::Flush).drop_last() =~= pre);
    assert(writer_run(s, pre.push(WriterEvent::Flush)) == (r.0, r.1 + Seq::<u8>::empty()));
    assert(r.1 + Seq::<u8>::empty() =~= r.1);
    lemma_writer_run_append(s, pre.push(WriterEvent::Flush), post);
    lemma_writer_run_append(s, pre, post);
}


/// The state of a compressor after the samples `xs` and no flush: the header
/// went out with the first sample, the buffer holds the last
/// `xs.len() % bs` samples, the table stays fit for coding and the history
/// has three samples.
pub open spec fn samples_inv(s: WriterState, budget: MemoryBudget, xs: Seq<i64>) -> bool {
    let bs = budget.block_samples as int;
    let n = xs.len() as int;
    &&& s.budget == budget
    &&& s.header == (n > 0)
    &&& s.buffer == xs.subrange(n - n % bs, n)
    &&& s.table.wf()
    &&& s.hist.len() == 3
}

/// The seed (sample and history) that the block of a sample `x` arriving in
/// state `s` is coded with: `x` itself when it starts a block while the seed
/// is zero.
pub open spec fn sample_seed(s: WriterState, x: i64) -> (i64, Seq<i64>) {
    if s.buffer.len() == 0 && s.init == 0 {
        (x, seq![x, x, x])
    } else {
        (s.init, s.hist)
    }
}

/// What the `n`-th call of `write_sample` (for the samples `xs`, `n` their
/// count) hands back: the header on the first call, and on every call whose
/// count is a multiple of the block size one block of the last
/// `block_samples` samples.
pub open spec fn sample_output(budget: MemoryBudget, xs: Seq<i64>) -> Seq<u8> {
    let bs = budget.block_samples as int;
    let n = xs.len() as int;
    let r = writer_samples(writer_new(budget), xs.drop_last()).0;
    let seed = sample_seed(r, xs.last());
    (if n == 1 {
        stream_header(budget.profile, 1, 0)
    } else {
        Seq::empty()
    }) + if n % bs == 0 {
        auto_block(xs.subrange(n - bs, n), seed.0, seed.1, r.table).0
    } else {
        Seq::empty()
    }
}

/// `(j - 1) % bs + 1` is `bs` exactly when `j` is a multiple of `bs`, and is
/// `j % bs` otherwise.
proof fn lemma_mod_step(j: int, bs: int)
    requires
        j >= 1,
        bs >= 1,
    ensures
        (j - 1) % bs + 1 == bs <==> j % bs == 0,
        (j - 1) % bs + 1 != bs ==> j % bs == (j - 1) % bs + 1,
        0 <= (j - 1) % bs < bs,
        (j - 1) % bs <= j - 1,
{
    let q = (j - 1) / bs;
    let m = (j - 1) % bs;
    vstd::arithmetic::div_mod::lemma_fundamental_div_mod(j - 1, bs);
    vstd::arithmetic::div_mod::lemma_mod_bound(j - 1, bs);
    vstd::arithmetic::div_mod::lemma_div_pos_is_pos(j - 1, bs);
    assert(m <= j - 1) by (nonlinear_arith)
        requires
            j - 1 == bs * q + m,
            q >= 0,
            bs >= 1,
    ;
    if m + 1 < bs {
        vstd::arithmetic::div_mod::lemma_fundamental_div_mod_converse(j, bs, q, m + 1);
    } else {
        assert(j == (q + 1) * bs) by (nonlinear_arith)
            requires
                j - 1 == bs * q + m,
                m + 1 == bs,
        ;
        vstd::arithmetic::div_mod::lemma_fundamental_div_mod_converse(j, bs, q + 1, 0);
    }
}

/// Each sample handed to a fresh compressor, with no flush between, gives
/// back the header on the first call and one non-empty block of the last
/// `block_samples` samples on every call whose count is a multiple of the
/// block size, and nothing else.
pub proof fn lemma_sample_output(budget: MemoryBudget, xs: Seq<i64>)
    requires
        budget.block_samples >= 1,
        xs.len() >= 1,
    ensures
        writer_sample(writer_samples(writer_new(budget), xs.drop_last()).0, xs.last()).1
            == sample_output(budget, xs),
        (xs.len() as int) % (budget.block_samples as int) == 0 ==> sample_output(budget, xs).len() > (
        if xs.len() == 1 {
            7int
        } else {
            0int
        }),
        samples_inv(writer_samples(writer_new(budget), xs).0, budget, xs),
    decreases xs.len(),
{
    let bs = budget.block_samples as int;
    let pre = xs.drop_last();
    let n = xs.len() as int;
    let x = xs.last();
    if pre.len() == 0 {
        lemma_normalized_wf(skewed_raw());
        assert(pre.subrange(0, 0) =~= Seq::<i64>::empty());
    } else {
        lemma_sample_output(budget, pre);
    }
    let r = writer_samples(writer_new(budget), pre).0;
    assert(samples_inv(r, budget, pre));
    lemma_mod_step(n, bs);
    let m = (n - 1) % bs;
    let seed = sample_seed(r, x);
    assert(r.buffer.push(x) =~= xs.subrange(n - 1 - m, n));
    assert(writer_samples(writer_new(budget), xs).0 == writer_sample(r, x).0);
    if m + 1 == bs {
        assert(n - 1 - m == n - bs);
        lemma_auto_block_shape(xs.subrange(n - bs, n), seed.0, seed.1, r.table);
        assert(xs.subrange(n, n) =~= Seq::<i64>::empty());
    } else {
        assert(n - n % bs == n - 1 - m);
    }
    assert(Seq::<u8>::empty() + Seq::<u8>::empty() =~= Seq::<u8>::empty());
    assert(stream_header(budget.profile, 1, 0) + Seq::<u8>::empty() =~= stream_header(
        budget.profile,
        1,
        0,
    ));
}

} // verus!
