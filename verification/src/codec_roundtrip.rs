//! What decompression gives back of what compression wrote.

use vstd::prelude::*;
use crate::codec::{i64_decompressed, xor_blocks, compressed_f64_bits, f64_bits_decompressed,
    le_words, auto_blocks, chunk_len, sample_blocks, compressed_bytes, decompressed, read_blocks,
    stream_header, stream_tail, start_table, repeats_at, first_repeat, repeat_distance, repeat_block,
    REPEAT_WINDOW};
use crate::entropy::adaptive_table::{TableView, lemma_normalized_wf, lemma_observed_all_wf,
    skewed_raw};
use crate::le_bytes::{le_bytes, bytes_value, lemma_le_bytes_len, lemma_le_bytes_of_value,
    lemma_bytes_value_bound, lemma_pow256_values};
use crate::memory_budget::MemoryBudget;
use crate::stream::MAGIC;
use crate::stream::block_reader::{read_block, BlockRead, repeat_history, u16_at};
use crate::stream::block_writer::{auto_block, auto_next_state, plain_next_state, as_words, words_le,
    fir_block, coded_or_raw, xor_block};
use crate::stream::block_roundtrip::{lemma_auto_block_roundtrip, lemma_xor_block_roundtrip};

use crate::predictor::PredictorMode;
use crate::predictor::selector::block_mode;

verus! {

/// The block of a non-empty chunk is not empty, its table stays fit for
/// coding, and the history it hands on has three samples.
pub(crate) proof fn lemma_auto_block_shape(samples: Seq<i64>, init: i64, hist: Seq<i64>, t: TableView)
    requires
        samples.len() >= 1,
        hist.len() == 3,
        t.wf(),
    ensures
        auto_block(samples, init, hist, t).0.len() >= 1,
        auto_block(samples, init, hist, t).1.wf(),
        auto_next_state(samples, init, hist).1.len() == 3,
{
    reveal(auto_block);
    lemma_le_bytes_len(samples.len(), 2);
    match block_mode(samples, init, hist) {
        PredictorMode::Constant => {},
        PredictorMode::LinearRamp => {},
        PredictorMode::DeltaOfDelta => {
            lemma_observed_all_wf(
                t,
                crate::predictor::zero_run::pack_runs(
                    crate::predictor::delta_xor::symbols_of(
                        crate::predictor::delta_xor::delta2_residuals(samples, init, hist[1]),
                    ),
                ),
            );
        },
        PredictorMode::AdaptiveLinear => {
            lemma_observed_all_wf(
                t,
                crate::predictor::zero_run::pack_runs(
                    crate::predictor::delta_xor::symbols_of(
                        crate::predictor::adaptive_linear::fir_run(
                            samples,
                            crate::predictor::adaptive_linear::fir_initial(hist),
                        ).0,
                    ),
                ),
            );
        },
        _ => {
            lemma_observed_all_wf(
                t,
                crate::predictor::zero_run::pack_runs(
                    crate::predictor::delta_xor::symbols_of(
                        crate::predictor::delta_xor::delta_residuals(samples, init),
                    ),
                ),
            );
        },
    }
}

/// One decoded block moves `read_blocks` on to the next.
pub(crate) proof fn lemma_read_blocks_step(
    c: Seq<u8>,
    off: int,
    limit: int,
    t: TableView,
    out: Seq<u64>,
    next: int,
    values: Seq<u64>,
    t2: TableView,
)
    requires
        0 <= off < limit,
        off < next <= c.len(),
        read_block(c, off, t, out) == (BlockRead::Decoded { next, values, table: t2 }),
    ensures
        read_blocks(c, off, limit, t, out) == read_blocks(c, next, limit, t2, out + values),
{
}

/// The words that a repeat at distance `d` appends to those of `prior` are
/// those of the chunk that repeats.
proof fn lemma_repeat_words(prior: Seq<i64>, chunk: Seq<i64>, d: nat, m: nat)
    requires
        repeats_at(prior, chunk, d),
        m <= chunk.len(),
    ensures
        repeat_history(as_words(prior), d, m) == as_words(prior + chunk.take(m as int)),
    decreases m,
{
    if m == 0 {
        assert(prior + chunk.take(0) =~= prior);
    } else {
        lemma_repeat_words(prior, chunk, d, (m - 1) as nat);
        let pre = prior + chunk.take(m - 1);
        let o = as_words(pre);
        let j = m - 1;
        assert((prior + chunk)[prior.len() + j] == (prior + chunk)[prior.len() + j - d]);
        assert(pre[pre.len() - d] == (prior + chunk)[prior.len() + j - d]);
        assert(o.push(o[o.len() - d]) =~= as_words(prior + chunk.take(m as int)));
    }
}

/// The first repeat found is a repeat within the limit.
proof fn lemma_first_repeat(prior: Seq<i64>, chunk: Seq<i64>, d: nat, limit: nat)
    ensures
        first_repeat(prior, chunk, d, limit) matches Some(r) ==> repeats_at(prior, chunk, r) && r
            <= limit,
    decreases limit + 1 - d,
{
    if d <= limit && !repeats_at(prior, chunk, d) {
        lemma_first_repeat(prior, chunk, d + 1, limit);
    }
}

/// The repeat distance found is a repeat, within the window.
pub(crate) proof fn lemma_first_repeat_bound(prior: Seq<i64>, chunk: Seq<i64>)
    ensures
        repeat_distance(prior, chunk) matches Some(r) ==> repeats_at(prior, chunk, r) && r
            <= REPEAT_WINDOW,
{
    lemma_first_repeat(
        prior,
        chunk,
        1,
        if prior.len() < REPEAT_WINDOW {
            prior.len()
        } else {
            REPEAT_WINDOW as nat
        },
    );
}

/// Reading a repeat block after the words of `prior` gives the chunk that
/// repeats.
proof fn lemma_read_repeat_block(
    c: Seq<u8>,
    off: int,
    prior: Seq<i64>,
    chunk: Seq<i64>,
    d: nat,
    t: TableView,
)
    requires
        repeats_at(prior, chunk, d),
        d <= REPEAT_WINDOW,
        1 <= chunk.len() <= 65535,
        0 <= off,
        off + 5 <= c.len(),
        c.subrange(off, off + 5) == repeat_block(chunk.len(), d),
    ensures
        read_block(c, off, t, as_words(prior)) == (BlockRead::Decoded {
            next: off + 5,
            values: as_words(chunk),
            table: t,
        }),
{
    reveal(read_block);
    let blk = repeat_block(chunk.len(), d);
    lemma_le_bytes_len(chunk.len(), 2);
    lemma_le_bytes_len(d, 2);
    lemma_pow256_values();
    assert(c[off] == blk[0]);
    assert(c.subrange(off + 1, off + 3) =~= blk.subrange(1, 3));
    assert(blk.subrange(1, 3) =~= le_bytes(chunk.len(), 2));
    crate::le_bytes::lemma_le_bytes_roundtrip(chunk.len(), 2);
    assert(c.subrange(off + 3, off + 5) =~= blk.subrange(3, 5));
    assert(blk.subrange(3, 5) =~= le_bytes(d, 2));
    crate::le_bytes::lemma_le_bytes_roundtrip(d, 2);
    assert(u16_at(c, off + 1) == chunk.len());
    assert(u16_at(c, off + 3) == d);
    lemma_repeat_words(prior, chunk, d, chunk.len());
    assert(chunk.take(chunk.len() as int) =~= chunk);
    assert(as_words(prior + chunk).skip(prior.len() as int) =~= as_words(chunk));
}

/// Reading the blocks that the writer emitted after the words of `prior`
/// gives their words.
#[verifier::rlimit(40)]
proof fn lemma_read_auto_blocks(
    c: Seq<u8>,
    off: int,
    words: Seq<i64>,
    prior: Seq<i64>,
    bs: nat,
    init: i64,
    hist: Seq<i64>,
    t: TableView,
)
    requires
        1 <= bs <= 65535,
        hist.len() == 3,
        t.wf(),
        0 <= off,
        off + auto_blocks(words, prior, bs, init, hist, t).len() <= c.len(),
        c.subrange(off, off + auto_blocks(words, prior, bs, init, hist, t).len()) == auto_blocks(
            words,
            prior,
            bs,
            init,
            hist,
            t,
        ),
    ensures
        read_blocks(
            c,
            off,
            off + auto_blocks(words, prior, bs, init, hist, t).len(),
            t,
            as_words(prior),
        ) == Ok::<(int, Seq<u64>), &'static str>(
            (off + auto_blocks(words, prior, bs, init, hist, t).len(), as_words(prior + words)),
        ),
    decreases words.len(),
{
    let all = auto_blocks(words, prior, bs, init, hist, t);
    let limit = off + all.len();
    let out = as_words(prior);
    if words.len() == 0 {
        assert(prior + words =~= prior);
    } else {
        let k = chunk_len(words.len(), bs) as int;
        let chunk = words.take(k);
        assert(prior + chunk + words.skip(k) =~= prior + words);
        assert(as_words(prior + chunk) =~= out + as_words(chunk));
        match repeat_distance(prior, chunk) {
            Some(d) => {
                let st = plain_next_state(chunk, hist);
                let b0 = repeat_block(k as nat, d);
                let rest = auto_blocks(words.skip(k), prior + chunk, bs, st.0, st.1, t);
                lemma_le_bytes_len(k as nat, 2);
                lemma_le_bytes_len(d, 2);
                assert(all == b0 + rest);
                let next = off + 5;
                lemma_first_repeat(
                    prior,
                    chunk,
                    1,
                    if prior.len() < REPEAT_WINDOW {
                        prior.len()
                    } else {
                        REPEAT_WINDOW as nat
                    },
                );
                assert(c.subrange(off, off + 5) == b0) by {
                    assert(c.subrange(off, off + 5) =~= all.subrange(0, 5));
                    assert(all.subrange(0, 5) =~= b0);
                }
                lemma_read_repeat_block(c, off, prior, chunk, d, t);
                lemma_read_blocks_step(c, off, limit, t, out, next, as_words(chunk), t);
                assert(c.subrange(next, next + rest.len()) == rest) by {
                    assert(c.subrange(next, next + rest.len()) =~= all.subrange(5, all.len() as int));
                    assert(all.subrange(5, all.len() as int) =~= rest);
                }
                assert(st.1.len() == 3);
                lemma_read_auto_blocks(c, next, words.skip(k), prior + chunk, bs, st.0, st.1, t);
            },
            None => {
                let blk = auto_block(chunk, init, hist, t);
                let st = auto_next_state(chunk, init, hist);
                let rest = auto_blocks(words.skip(k), prior + chunk, bs, st.0, st.1, blk.1);
                let b0 = blk.0;
                let next = off + b0.len();
                assert(all == b0 + rest);
                lemma_auto_block_shape(chunk, init, hist, t);
                assert(c.subrange(off, off + b0.len()) == b0) by {
                    assert(c.subrange(off, off + b0.len()) =~= all.subrange(0, b0.len() as int));
                    assert(all.subrange(0, b0.len() as int) =~= b0);
                }
                lemma_auto_block_roundtrip(chunk, init, hist, t, c, off, out);
                lemma_read_blocks_step(c, off, limit, t, out, next, as_words(chunk), blk.1);
                assert(c.subrange(next, next + rest.len()) == rest) by {
                    assert(c.subrange(next, next + rest.len()) =~= all.subrange(
                        b0.len() as int,
                        all.len() as int,
                    ));
                    assert(all.subrange(b0.len() as int, all.len() as int) =~= rest);
                }
                lemma_read_auto_blocks(c, next, words.skip(k), prior + chunk, bs, st.0, st.1, blk.1);
            },
        }
    }
}

/// The little-endian bytes of the whole words of `data` are its first bytes.
proof fn lemma_le_words_bytes(data: Seq<u8>, k: int)
    requires
        0 <= k <= data.len() / 8,
    ensures
        words_le(as_words(le_words(data)).take(k)) == data.take(8 * k),
    decreases k,
{
    let ws = as_words(le_words(data));
    if k == 0 {
        assert(ws.take(0) =~= Seq::<u64>::empty());
        assert(data.take(0) =~= Seq::<u8>::empty());
    } else {
        lemma_le_words_bytes(data, k - 1);
        let s = data.subrange(8 * (k - 1), 8 * k);
        assert(ws.take(k).drop_last() =~= ws.take(k - 1));
        lemma_bytes_value_bound(s);
        lemma_pow256_values();
        let v = bytes_value(s);
        let x = v as u64;
        assert(x == v);
        assert((x as i64) as u64 == x) by (bit_vector);
        assert(ws[k - 1] == x);
        lemma_le_bytes_of_value(s);
        assert(data.take(8 * k) =~= data.take(8 * (k - 1)) + s);
    }
}

/// Decompressing what `compress` wrote gives back the bytes, for every
/// block size from one to 65535 samples.
pub proof fn lemma_compress_roundtrip(data: Seq<u8>, budget: MemoryBudget)
    requires
        1 <= budget.block_samples <= 65535,
    ensures
        decompressed(compressed_bytes(data, budget)) == Ok::<Seq<u8>, &'static str>(data),
{
    let words = le_words(data);
    let n = words.len() as int;
    let bs = budget.block_samples as nat;
    let rem = data.len() % 8;
    let h = stream_header(budget.profile, 1, rem as u8);
    let b = sample_blocks(words, bs);
    let tail = data.skip(8 * n);
    let c = compressed_bytes(data, budget);
    assert(c == h + b + tail);
    assert(h.len() == 7);
    assert(c.take(4) =~= MAGIC@);
    assert(c[5] == 1);
    assert(c[6] == rem);
    assert(8 * n + rem == data.len());
    let limit = 7 + b.len() as int;
    assert(c.len() - rem == limit);
    if n == 0 {
        assert(b.len() == 0);
        assert(read_blocks(c, 7, limit, start_table(), Seq::empty()) == Ok::<
            (int, Seq<u64>),
            &'static str,
        >((7, Seq::empty())));
        assert(as_words(words) =~= Seq::<u64>::empty());
    } else {
        lemma_normalized_wf(skewed_raw());
        assert(c.subrange(7, limit) =~= b);
        lemma_read_auto_blocks(
            c,
            7,
            words,
            Seq::empty(),
            bs,
            words[0],
            seq![words[0], words[0], words[0]],
            start_table(),
        );
        assert(as_words(Seq::<i64>::empty()) =~= Seq::<u64>::empty());
        assert(Seq::<i64>::empty() + words =~= words);
    }
    lemma_le_words_bytes(data, n);
    assert(as_words(words).take(n) =~= as_words(words));
    if rem > 0 {
        assert(stream_tail(c, limit, rem as int) =~= tail);
    } else {
        assert(tail =~= Seq::<u8>::empty());
    }
    assert(data.take(8 * n) + tail =~= data);
}

/// The whole words of the bytes of signed samples are the samples.
pub(crate) proof fn lemma_le_words_of_samples(samples: Seq<i64>)
    ensures
        le_words(words_le(as_words(samples))) == samples,
{
    let ws = as_words(samples);
    let bytes = words_le(ws);
    crate::stream::block_roundtrip::lemma_words_le(ws);
    assert(bytes.len() / 8 == samples.len()) by (nonlinear_arith)
        requires
            bytes.len() == 8 * samples.len(),
    ;
    assert forall|i: int| 0 <= i < samples.len() implies le_words(bytes)[i] == samples[i] by {
        assert(bytes.subrange(8 * i, 8 * i + 8) == le_bytes(ws[i] as nat, 8));
        lemma_pow256_values();
        crate::le_bytes::lemma_le_bytes_roundtrip(ws[i] as nat, 8);
        let x = samples[i];
        assert((x as u64) as i64 == x) by (bit_vector);
    }
    assert(le_words(bytes) =~= samples);
}

/// Decompressing what `compress_i64` wrote gives back the samples, for every
/// block size from one to 65535 samples.
pub proof fn lemma_compress_i64_roundtrip(samples: Seq<i64>, budget: MemoryBudget)
    requires
        1 <= budget.block_samples <= 65535,
    ensures
        i64_decompressed(compressed_bytes(words_le(as_words(samples)), budget)) == Ok::<
            Seq<i64>,
            &'static str,
        >(samples),
{
    lemma_compress_roundtrip(words_le(as_words(samples)), budget);
    lemma_le_words_of_samples(samples);
}

/// The Gorilla XOR block of a non-empty chunk is not empty and its table
/// stays fit for coding.
proof fn lemma_xor_block_shape(samples: Seq<u64>, init: u64, t: TableView)
    requires
        samples.len() >= 1,
        t.wf(),
    ensures
        xor_block(samples, init, t).0.len() >= 1,
        xor_block(samples, init, t).1.wf(),
{
    lemma_le_bytes_len(samples.len(), 2);
    lemma_observed_all_wf(
        t,
        crate::predictor::zero_run::pack_runs(
            crate::predictor::delta_xor::symbols_of(
                crate::predictor::delta_xor::xor_residuals(samples, init),
            ),
        ),
    );
}

/// Reading Gorilla XOR blocks gives their words.
proof fn lemma_read_xor_blocks(
    c: Seq<u8>,
    off: int,
    ws: Seq<u64>,
    bs: nat,
    init: u64,
    t: TableView,
    out: Seq<u64>,
)
    requires
        1 <= bs <= 65535,
        t.wf(),
        0 <= off,
        off + xor_blocks(ws, bs, init, t).len() <= c.len(),
        c.subrange(off, off + xor_blocks(ws, bs, init, t).len()) == xor_blocks(ws, bs, init, t),
    ensures
        read_blocks(c, off, off + xor_blocks(ws, bs, init, t).len(), t, out) == Ok::<
            (int, Seq<u64>),
            &'static str,
        >((off + xor_blocks(ws, bs, init, t).len(), out + ws)),
    decreases ws.len(),
{
    let all = xor_blocks(ws, bs, init, t);
    let limit = off + all.len();
    if ws.len() == 0 {
        assert(out + ws =~= out);
    } else {
        let k = chunk_len(ws.len(), bs) as int;
        let chunk = ws.take(k);
        let blk = xor_block(chunk, init, t);
        let rest = xor_blocks(ws.skip(k), bs, chunk.last(), blk.1);
        let b0 = blk.0;
        let next = off + b0.len();
        assert(all == b0 + rest);
        lemma_xor_block_shape(chunk, init, t);
        assert(c.subrange(off, off + b0.len()) == b0) by {
            assert(c.subrange(off, off + b0.len()) =~= all.subrange(0, b0.len() as int));
            assert(all.subrange(0, b0.len() as int) =~= b0);
        }
        lemma_xor_block_roundtrip(chunk, init, t, c, off, out);
        lemma_read_blocks_step(c, off, limit, t, out, next, chunk, blk.1);
        assert(c.subrange(next, next + rest.len()) == rest) by {
            assert(c.subrange(next, next + rest.len()) =~= all.subrange(
                b0.len() as int,
                all.len() as int,
            ));
            assert(all.subrange(b0.len() as int, all.len() as int) =~= rest);
        }
        lemma_read_xor_blocks(c, next, ws.skip(k), bs, chunk.last(), blk.1, out + chunk);
        assert(out + chunk + ws.skip(k) =~= out + ws);
    }
}

/// Decompressing what `compress_f64_bits` wrote gives back the 64-bit
/// patterns, for every block size from one to 65535 samples.
pub proof fn lemma_compress_f64_bits_roundtrip(bits: Seq<u64>, budget: MemoryBudget)
    requires
        1 <= budget.block_samples <= 65535,
    ensures
        f64_bits_decompressed(compressed_f64_bits(bits, budget)) == Ok::<Seq<u64>, &'static str>(
            bits,
        ),
{
    let c = compressed_f64_bits(bits, budget);
    let h = stream_header(budget.profile, 2, 0);
    assert(h.len() == 7);
    assert(c.take(4) =~= MAGIC@);
    if bits.len() == 0 {
        assert(c.len() == 7);
    } else {
        let b = xor_blocks(bits, budget.block_samples as nat, bits[0], start_table());
        assert(c == h + b);
        lemma_normalized_wf(skewed_raw());
        assert(c.subrange(7, 7 + b.len() as int) =~= b);
        lemma_read_xor_blocks(
            c,
            7,
            bits,
            budget.block_samples as nat,
            bits[0],
            start_table(),
            Seq::empty(),
        );
        assert(Seq::<u64>::empty() + bits =~= bits);
    }
}

/// A block that is coded or raw takes at most its words and a 3-byte header.
proof fn lemma_coded_or_raw_bound(mode: u8, words: Seq<u64>, fixed: Seq<u8>, rs: Seq<u64>, t: TableView)
    ensures
        coded_or_raw(mode, words, fixed, rs, t).0.len() <= 3 + 8 * words.len(),
{
    let syms = crate::predictor::zero_run::pack_runs(crate::predictor::delta_xor::symbols_of(rs));
    let extra = crate::stream::block_writer::extra_bytes_of(crate::predictor::delta_xor::extras_of(rs));
    let payload = crate::entropy::rans_encoder::rans_payload(syms, t);
    lemma_le_bytes_len(words.len(), 2);
    lemma_le_bytes_len(syms.len(), 2);
    lemma_le_bytes_len(extra.len(), 2);
    lemma_le_bytes_len(payload.len(), 2);
    crate::stream::block_roundtrip::lemma_words_le(words);
}

/// A block never takes more than its samples as raw words and a 3-byte
/// header: the coded form is kept only when it is smaller than the words.
pub proof fn lemma_auto_block_no_expansion(samples: Seq<i64>, init: i64, hist: Seq<i64>, t: TableView)
    ensures
        auto_block(samples, init, hist, t).0.len() <= 3 + 8 * samples.len(),
{
    reveal(auto_block);
    reveal(block_mode);
    if samples.len() > 0 {
        lemma_le_bytes_len(samples.len(), 2);
        lemma_le_bytes_len((samples[0] as u64) as nat, 8);
        lemma_le_bytes_len((crate::predictor::selector::ramp_step(samples) as u64) as nat, 8);
        lemma_coded_or_raw_bound(
            5,
            as_words(samples),
            crate::stream::block_writer::delta2_seed(init, hist[1]),
            crate::predictor::delta_xor::delta2_residuals(samples, init, hist[1]),
            t,
        );
        lemma_coded_or_raw_bound(
            3,
            as_words(samples),
            crate::stream::block_writer::history_bytes(hist),
            crate::predictor::adaptive_linear::fir_run(
                samples,
                crate::predictor::adaptive_linear::fir_initial(hist),
            ).0,
            t,
        );
        lemma_coded_or_raw_bound(
            1,
            as_words(samples),
            le_bytes((init as u64) as nat, 8),
            crate::predictor::delta_xor::delta_residuals(samples, init),
            t,
        );
    }
}

/// A Gorilla XOR block never takes more than its words and a 3-byte header.
pub proof fn lemma_xor_block_no_expansion(samples: Seq<u64>, init: u64, t: TableView)
    ensures
        xor_block(samples, init, t).0.len() <= 3 + 8 * samples.len(),
{
    if samples.len() > 0 {
        lemma_coded_or_raw_bound(
            2,
            samples,
            le_bytes(init as nat, 8),
            crate::predictor::delta_xor::xor_residuals(samples, init),
            t,
        );
    }
}

/// The number of blocks that `n` samples make in chunks of `bs`.
pub open spec fn chunk_count(n: nat, bs: nat) -> nat
    decreases n,
{
    if n == 0 {
        0
    } else {
        1 + chunk_count((n - chunk_len(n, bs)) as nat, bs)
    }
}

/// The blocks of a stream take at most the samples as words and three bytes
/// per block.
pub proof fn lemma_auto_blocks_no_expansion(
    words: Seq<i64>,
    prior: Seq<i64>,
    bs: nat,
    init: i64,
    hist: Seq<i64>,
    t: TableView,
)
    ensures
        auto_blocks(words, prior, bs, init, hist, t).len() <= 8 * words.len() + 3 * chunk_count(
            words.len(),
            bs,
        ),
    decreases words.len(),
{
    if words.len() > 0 {
        let k = chunk_len(words.len(), bs) as int;
        let chunk = words.take(k);
        match repeat_distance(prior, chunk) {
            Some(d) => {
                let st = plain_next_state(chunk, hist);
                lemma_le_bytes_len(k as nat, 2);
                lemma_le_bytes_len(d, 2);
                lemma_auto_blocks_no_expansion(words.skip(k), prior + chunk, bs, st.0, st.1, t);
            },
            None => {
                let blk = auto_block(chunk, init, hist, t);
                let st = auto_next_state(chunk, init, hist);
                lemma_auto_block_no_expansion(chunk, init, hist, t);
                lemma_auto_blocks_no_expansion(words.skip(k), prior + chunk, bs, st.0, st.1, blk.1);
            },
        }
    }
}

/// Compressing never adds more than the 7-byte header and three bytes per
/// block to the data.
pub proof fn lemma_compress_no_expansion(data: Seq<u8>, budget: MemoryBudget)
    ensures
        compressed_bytes(data, budget).len() <= 7 + data.len() + 3 * chunk_count(
            le_words(data).len(),
            budget.block_samples as nat,
        ),
{
    let words = le_words(data);
    let n = words.len() as int;
    if n > 0 {
        lemma_auto_blocks_no_expansion(
            words,
            Seq::empty(),
            budget.block_samples as nat,
            words[0],
            seq![words[0], words[0], words[0]],
            start_table(),
        );
    }
    assert(8 * n <= data.len());
}

} // verus!
