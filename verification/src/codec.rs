//! Whole-stream compression: a 7-byte header (`MAGIC`, memory profile, data
//! type, count of trailing bytes), the blocks, and the bytes that do not fill
//! a last 8-byte word.

use vstd::prelude::*;
use crate::entropy::adaptive_table::{AdaptiveTable, TableView, normalized_table, skewed_raw};
use crate::le_bytes::{push_le, push_slice, read_le, le_bytes};
use crate::memory_budget::{MemoryBudget, MemoryProfile};
use crate::stream::{MAGIC, StreamDataType};
use crate::stream::block_reader::{BlockReader, BlockRead, read_block, i64_at};
use crate::stream::block_writer::{BlockWriter, auto_block, auto_next_state, plain_next_state,
    xor_block, words_le, as_words};

verus! {

/// The header byte of a memory profile.
pub open spec fn profile_code(p: MemoryProfile) -> u8 {
    match p {
        MemoryProfile::Micro4KB => 0,
        MemoryProfile::Embedded16KB => 1,
        MemoryProfile::Embedded32KB => 2,
        MemoryProfile::Desktop64KB => 3,
    }
}

/// The table every stream starts with.
pub open spec fn start_table() -> TableView {
    normalized_table(skewed_raw())
}

/// The 7-byte stream header.
pub open spec fn stream_header(p: MemoryProfile, data_type: u8, rem: u8) -> Seq<u8> {
    MAGIC@ + seq![profile_code(p), data_type, rem]
}

/// The whole 8-byte little-endian words of `data`, as signed samples.
pub open spec fn le_words(data: Seq<u8>) -> Seq<i64> {
    Seq::new(data.len() / 8, |i: int| i64_at(data, 8 * i))
}

/// The size of the next chunk of `len` remaining samples.
pub open spec fn chunk_len(len: nat, bs: nat) -> nat {
    if bs < len && bs > 0 {
        bs
    } else {
        len
    }
}

/// How many samples back the writer looks for an earlier stretch that a
/// block repeats.
pub const REPEAT_WINDOW: usize = 4096;

/// Whether `chunk`, written after `prior`, repeats the samples `d` places
/// back (a repeat may reach into the chunk itself).
pub open spec fn repeats_at(prior: Seq<i64>, chunk: Seq<i64>, d: nat) -> bool {
    &&& 1 <= d <= prior.len()
    &&& forall|j: int|
        0 <= j < chunk.len() ==> #[trigger] (prior + chunk)[prior.len() + j] == (prior + chunk)[prior.len()
            + j - d]
}

/// The smallest distance from `d` to `limit` at which `chunk` repeats.
pub open spec fn first_repeat(prior: Seq<i64>, chunk: Seq<i64>, d: nat, limit: nat) -> Option<nat>
    decreases limit + 1 - d,
{
    if d > limit {
        None
    } else if repeats_at(prior, chunk, d) {
        Some(d)
    } else {
        first_repeat(prior, chunk, d + 1, limit)
    }
}

/// The distance of the nearest repeat of `chunk` within the window, if any.
pub open spec fn repeat_distance(prior: Seq<i64>, chunk: Seq<i64>) -> Option<nat> {
    first_repeat(
        prior,
        chunk,
        1,
        if prior.len() < REPEAT_WINDOW {
            prior.len()
        } else {
            REPEAT_WINDOW as nat
        },
    )
}

/// A repeat block: `[7][count: u16][distance: u16]`.
pub open spec fn repeat_block(n: nat, d: nat) -> Seq<u8> {
    seq![7u8] + le_bytes(n, 2) + le_bytes(d, 2)
}

/// The blocks that the writer emits for `words`, written after `prior`, cut
/// into chunks of `bs` samples: a chunk that repeats an earlier stretch
/// within the window becomes a repeat block, any other one the block that
/// the automatic writer emits; each block carries the predictor state on.
pub open spec fn auto_blocks(
    words: Seq<i64>,
    prior: Seq<i64>,
    bs: nat,
    init: i64,
    hist: Seq<i64>,
    t: TableView,
) -> Seq<u8>
    decreases words.len(),
{
    if words.len() == 0 {
        Seq::empty()
    } else {
        let k = chunk_len(words.len(), bs) as int;
        let chunk = words.take(k);
        match repeat_distance(prior, chunk) {
            Some(d) => {
                let st = plain_next_state(chunk, hist);
                repeat_block(k as nat, d) + auto_blocks(
                    words.skip(k),
                    prior + chunk,
                    bs,
                    st.0,
                    st.1,
                    t,
                )
            },
            None => {
                let blk = auto_block(chunk, init, hist, t);
                let st = auto_next_state(chunk, init, hist);
                blk.0 + auto_blocks(words.skip(k), prior + chunk, bs, st.0, st.1, blk.1)
            },
        }
    }
}

/// The blocks of the integer samples `words` from a fresh stream state.
pub open spec fn sample_blocks(words: Seq<i64>, bs: nat) -> Seq<u8> {
    if words.len() == 0 {
        Seq::empty()
    } else {
        auto_blocks(
            words,
            Seq::empty(),
            bs,
            words[0],
            seq![words[0], words[0], words[0]],
            start_table(),
        )
    }
}

/// The compressed form of `data`.
pub open spec fn compressed_bytes(data: Seq<u8>, budget: MemoryBudget) -> Seq<u8> {
    let words = le_words(data);
    stream_header(budget.profile, 1, (data.len() % 8) as u8) + sample_blocks(
        words,
        budget.block_samples as nat,
    ) + data.skip(8 * words.len() as int)
}

/// Reading blocks from `off` while it is below `limit`: the offset reached
/// and the words decoded, or the first error.
pub open spec fn read_blocks(data: Seq<u8>, off: int, limit: int, t: TableView, out: Seq<u64>) -> Result<
    (int, Seq<u64>),
    &'static str,
>
    decreases data.len() - off,
{
    if off < limit {
        match read_block(data, off, t, out) {
            BlockRead::End => Ok((off, out)),
            BlockRead::Failed { msg, .. } => Err(msg),
            BlockRead::Decoded { next, values, table } => {
                if off < next <= data.len() {
                    read_blocks(data, next, limit, table, out + values)
                } else {
                    Ok((next, out + values))
                }
            },
        }
    } else {
        Ok((off, out))
    }
}

/// The trailing bytes that follow the blocks.
pub open spec fn stream_tail(c: Seq<u8>, off: int, rem: int) -> Seq<u8> {
    if rem > 0 && off < c.len() {
        c.subrange(off, off + if rem < c.len() - off {
            rem
        } else {
            c.len() - off
        })
    } else {
        Seq::empty()
    }
}

/// The outcome of decompressing `c`.
pub open spec fn decompressed(c: Seq<u8>) -> Result<Seq<u8>, &'static str> {
    if c.len() < 7 {
        Err("Payload too short for Tether header")
    } else if c.take(4) != MAGIC@ {
        Err("Invalid Tether magic bytes")
    } else if c[5] > 2 {
        Err("Unknown stream data type")
    } else {
        let rem = c[6] as int;
        let limit = if c.len() >= rem {
            c.len() - rem
        } else {
            0
        };
        match read_blocks(c, 7, limit, start_table(), Seq::empty()) {
            Err(m) => Err(m),
            Ok(r) => Ok(words_le(r.1) + stream_tail(c, r.0, rem)),
        }
    }
}

/// The samples of a stream whose bytes are `bytes`.
pub open spec fn i64_decompressed(c: Seq<u8>) -> Result<Seq<i64>, &'static str> {
    match decompressed(c) {
        Ok(b) => Ok(le_words(b)),
        Err(m) => Err(m),
    }
}

/// The Gorilla XOR blocks of the words `ws`, cut into chunks of `bs`, each
/// seeded with the last word of the chunk before.
pub open spec fn xor_blocks(ws: Seq<u64>, bs: nat, init: u64, t: TableView) -> Seq<u8>
    decreases ws.len(),
{
    if ws.len() == 0 {
        Seq::empty()
    } else {
        let k = chunk_len(ws.len(), bs) as int;
        let chunk = ws.take(k);
        let blk = xor_block(chunk, init, t);
        blk.0 + xor_blocks(ws.skip(k), bs, chunk.last(), blk.1)
    }
}

/// The compressed form of the 64-bit patterns of floating-point samples.
pub open spec fn compressed_f64_bits(bits: Seq<u64>, budget: MemoryBudget) -> Seq<u8> {
    stream_header(budget.profile, 2, 0) + if bits.len() == 0 {
        Seq::empty()
    } else {
        xor_blocks(bits, budget.block_samples as nat, bits[0], start_table())
    }
}

/// The 64-bit patterns that decompressing a floating-point stream gives.
pub open spec fn f64_bits_decompressed(c: Seq<u8>) -> Result<Seq<u64>, &'static str> {
    if c.len() < 7 {
        Err("Payload too short for Tether header")
    } else if c.take(4) != MAGIC@ {
        Err("Invalid Tether magic bytes")
    } else {
        match read_blocks(c, 7, c.len() as int, start_table(), Seq::empty()) {
            Err(m) => Err(m),
            Ok(r) => Ok(r.1),
        }
    }
}

/// Whether `c` starts with `MAGIC`.
fn has_magic(c: &[u8]) -> (b: bool)
    requires
        c@.len() >= 4,
    ensures
        b == (c@.take(4) == MAGIC@),
{
    let b = c[0] == MAGIC[0] && c[1] == MAGIC[1] && c[2] == MAGIC[2] && c[3] == MAGIC[3];
    proof {
        if b {
            assert(c@.take(4) =~= MAGIC@);
        } else {
            assert(c@.take(4) != MAGIC@ || b) by {
                if c@.take(4) == MAGIC@ {
                    assert(c@.take(4)[0] == MAGIC@[0]);
                    assert(c@.take(4)[1] == MAGIC@[1]);
                    assert(c@.take(4)[2] == MAGIC@[2]);
                    assert(c@.take(4)[3] == MAGIC@[3]);
                }
            }
        }
    }
    b
}

/// Appends the stream header.
pub(crate) fn push_header(out: &mut Vec<u8>, profile: MemoryProfile, data_type: u8, rem: u8)
    ensures
        final(out)@ == old(out)@ + stream_header(profile, data_type, rem),
{
    push_slice(out, &MAGIC);
    let p: u8 = match profile {
        MemoryProfile::Micro4KB => 0,
        MemoryProfile::Embedded16KB => 1,
        MemoryProfile::Embedded32KB => 2,
        MemoryProfile::Desktop64KB => 3,
    };
    out.push(p);
    out.push(data_type);
    out.push(rem);
    proof {
        assert(out@ =~= old(out)@ + stream_header(profile, data_type, rem));
    }
}

/// Whether the samples from `start` to `end` repeat the samples `d` places
/// back.
fn check_repeat(words: &[i64], start: usize, end: usize, d: usize) -> (b: bool)
    requires
        1 <= d <= start < end <= words@.len(),
    ensures
        b == repeats_at(words@.take(start as int), words@.subrange(start as int, end as int), d as nat),
{
    let ghost prior = words@.take(start as int);
    let ghost chunk = words@.subrange(start as int, end as int);
    proof {
        assert(prior + chunk =~= words@.take(end as int));
    }
    let mut j: usize = 0;
    while j < end - start
        invariant
            1 <= d <= start < end <= words@.len(),
            prior == words@.take(start as int),
            chunk == words@.subrange(start as int, end as int),
            prior + chunk == words@.take(end as int),
            j <= end - start,
            forall|i: int|
                0 <= i < j ==> #[trigger] (prior + chunk)[prior.len() + i] == (prior + chunk)[prior.len()
                    + i - d],
        decreases end - start - j,
    {
        if words[start + j] != words[start + j - d] {
            proof {
                assert((prior + chunk)[prior.len() + j] == words@[start + j]);
                assert((prior + chunk)[prior.len() + j - d] == words@[start + j - d]);
            }
            return false;
        }
        proof {
            assert((prior + chunk)[prior.len() + j] == words@[start + j]);
            assert((prior + chunk)[prior.len() + j - d] == words@[start + j - d]);
        }
        j = j + 1;
    }
    true
}

/// The distance of the nearest repeat, within the window, of the samples
/// from `start` to `end`.
fn find_repeat(words: &[i64], start: usize, end: usize) -> (r: Option<usize>)
    requires
        start < end <= words@.len(),
    ensures
        match repeat_distance(words@.take(start as int), words@.subrange(start as int, end as int)) {
            Some(d) => r == Some(d as usize),
            None => r is None,
        },
{
    let ghost prior = words@.take(start as int);
    let ghost chunk = words@.subrange(start as int, end as int);
    let limit: usize = if start < REPEAT_WINDOW {
        start
    } else {
        REPEAT_WINDOW
    };
    let mut d: usize = 1;
    while d <= limit
        invariant
            start < end <= words@.len(),
            prior == words@.take(start as int),
            chunk == words@.subrange(start as int, end as int),
            limit <= start,
            limit == (if prior.len() < REPEAT_WINDOW {
                prior.len()
            } else {
                REPEAT_WINDOW as nat
            }),
            1 <= d <= limit + 1,
            repeat_distance(prior, chunk) == first_repeat(prior, chunk, d as nat, limit as nat),
        decreases limit + 1 - d,
    {
        if check_repeat(words, start, end, d) {
            return Some(d);
        }
        d = d + 1;
    }
    None
}

/// One chunk of `auto_blocks`, from `start` to `end`.
proof fn lemma_auto_blocks_step(
    words: Seq<i64>,
    start: int,
    end: int,
    bs: nat,
    init: i64,
    hist: Seq<i64>,
    t: TableView,
)
    requires
        0 <= start < end <= words.len(),
        end - start == chunk_len((words.len() - start) as nat, bs),
    ensures
        auto_blocks(words.skip(start), words.take(start), bs, init, hist, t) == match repeat_distance(
            words.take(start),
            words.subrange(start, end),
        ) {
            Some(d) => repeat_block((end - start) as nat, d) + auto_blocks(
                words.skip(end),
                words.take(end),
                bs,
                plain_next_state(words.subrange(start, end), hist).0,
                plain_next_state(words.subrange(start, end), hist).1,
                t,
            ),
            None => auto_block(words.subrange(start, end), init, hist, t).0 + auto_blocks(
                words.skip(end),
                words.take(end),
                bs,
                auto_next_state(words.subrange(start, end), init, hist).0,
                auto_next_state(words.subrange(start, end), init, hist).1,
                auto_block(words.subrange(start, end), init, hist, t).1,
            ),
        },
{
    let rest = words.skip(start);
    let k = chunk_len(rest.len(), bs) as int;
    assert(rest.take(k) =~= words.subrange(start, end));
    assert(rest.skip(k) =~= words.skip(end));
    assert(words.take(start) + words.subrange(start, end) =~= words.take(end));
}

/// Writes `words` as blocks of at most `bs` samples, starting from the first
/// sample as predictor seed: a chunk that repeats an earlier stretch within
/// the window as a repeat block, any other as an automatically predicted one.
pub(crate) fn write_sample_blocks(words: &[i64], bs: usize, table: &mut AdaptiveTable, out: &mut Vec<u8>)
    requires
        words@.len() > 0 ==> bs > 0,
        old(table)@ == start_table(),
    ensures
        final(out)@ == old(out)@ + sample_blocks(words@, bs as nat),
{
    let n = words.len();
    if n == 0 {
        proof {
            assert(old(out)@ + Seq::<u8>::empty() =~= old(out)@);
        }
        return;
    }
    proof {
        crate::entropy::adaptive_table::lemma_normalized_wf(skewed_raw());
    }
    let w0 = words[0];
    let mut init: i64 = w0;
    let mut hist: [i64; 3] = [w0, w0, w0];
    let mut start: usize = 0;
    proof {
        assert(words@.skip(0) =~= words@);
        assert(words@.take(0) =~= Seq::<i64>::empty());
        assert(hist@ =~= seq![w0, w0, w0]);
        assert(old(out)@ + sample_blocks(words@, bs as nat) =~= out@ + auto_blocks(
            words@.skip(0),
            words@.take(0),
            bs as nat,
            init,
            hist@,
            table@,
        ));
    }
    while start < n
        invariant
            start <= n == words@.len(),
            bs > 0,
            table@.wf(),
            hist@.len() == 3,
            old(out)@ + sample_blocks(words@, bs as nat) == out@ + auto_blocks(
                words@.skip(start as int),
                words@.take(start as int),
                bs as nat,
                init,
                hist@,
                table@,
            ),
        decreases n - start,
    {
        let old_start = start;
        let end: usize = if n - start > bs {
            start + bs
        } else {
            n
        };
        let ghost t0 = table@;
        let ghost o0 = out@;
        let ghost i0 = init;
        let ghost h0 = hist@;
        let chunk = &words[start..end];
        proof {
            lemma_auto_blocks_step(words@, start as int, end as int, bs as nat, i0, h0, t0);
            assert(chunk@ =~= words@.subrange(start as int, end as int));
        }
        match find_repeat(words, start, end) {
            Some(d) => {
                out.push(7);
                push_le(out, (end - start) as u64, 2);
                push_le(out, d as u64, 2);
                let len = end - start;
                let last_val: i64 = chunk[len - 1];
                let h1: i64 = if len > 1 {
                    chunk[len - 2]
                } else {
                    hist[0]
                };
                let h2: i64 = if len > 2 {
                    chunk[len - 3]
                } else {
                    hist[1]
                };
                init = last_val;
                hist = [last_val, h1, h2];
                proof {
                    assert(hist@ =~= plain_next_state(chunk@, h0).1);
                    assert(out@ =~= o0 + repeat_block((end - start) as nat, d as nat));
                    let prior = words@.take(old_start as int);
                    let ch = words@.subrange(old_start as int, end as int);
                    crate::codec_roundtrip::lemma_first_repeat_bound(prior, ch);
                    assert(repeat_distance(prior, ch) == Some(d as nat));
                }
            },
            None => {
                let r = BlockWriter::write_auto_i64_block(chunk, init, hist, table, out);
                init = r.0;
                hist = r.1;
                proof {
                    crate::codec_roundtrip::lemma_auto_block_shape(chunk@, i0, h0, t0);
                }
            },
        }
        start = end;
        proof {
            assert(out@ + auto_blocks(
                words@.skip(end as int),
                words@.take(end as int),
                bs as nat,
                init,
                hist@,
                table@,
            ) =~= o0 + auto_blocks(
                words@.skip(old_start as int),
                words@.take(old_start as int),
                bs as nat,
                i0,
                h0,
                t0,
            ));
        }
    }
    proof {
        assert(words@.skip(n as int) =~= Seq::<i64>::empty());
        assert(out@ + Seq::<u8>::empty() =~= out@);
    }
}

/// Compress a raw byte stream into Tether format under the given memory budget.
pub fn compress(data: &[u8], budget: MemoryBudget) -> (out: Vec<u8>)
    requires
        data@.len() >= 8 ==> budget.block_samples > 0,
    ensures
        out@ == compressed_bytes(data@, budget),
{
    let mut out: Vec<u8> = Vec::new();
    let num_words = data.len() / 8;
    let rem = data.len() % 8;
    push_header(&mut out, budget.profile, 1, rem as u8);
    let mut words: Vec<i64> = Vec::new();
    let mut i: usize = 0;
    while i < num_words
        invariant
            i <= num_words == data@.len() / 8,
            words@ == le_words(data@).take(i as int),
        decreases num_words - i,
    {
        let dl = data.len();
        assert(8 * i + 8 <= dl) by (nonlinear_arith)
            requires
                i < num_words,
                num_words == dl / 8,
        ;
        let v = read_le(data, 8 * i, 8);
        #[verifier::truncate]
        let w: i64 = v as i64;
        words.push(w);
        proof {
            assert(words@ =~= le_words(data@).take(i + 1));
        }
        i = i + 1;
    }
    proof {
        assert(words@ =~= le_words(data@));
    }
    let mut table = AdaptiveTable::new_skewed();
    write_sample_blocks(words.as_slice(), budget.block_samples, &mut table, &mut out);
    let tail_start: usize = num_words * 8;
    let tail = &data[tail_start..data.len()];
    push_slice(&mut out, tail);
    proof {
        assert(tail@ =~= data@.skip(8 * le_words(data@).len() as int));
    }
    out
}

/// Appends the little-endian bytes of every word.
pub(crate) fn push_words(ws: &[u64], out: &mut Vec<u8>)
    ensures
        final(out)@ == old(out)@ + words_le(ws@),
{
    let mut i: usize = 0;
    proof {
        assert(ws@.take(0) =~= Seq::<u64>::empty());
        assert(old(out)@ + words_le(Seq::<u64>::empty()) =~= old(out)@);
    }
    while i < ws.len()
        invariant
            i <= ws@.len(),
            out@ == old(out)@ + words_le(ws@.take(i as int)),
        decreases ws@.len() - i,
    {
        push_le(out, ws[i], 8);
        proof {
            assert(ws@.take(i + 1).drop_last() =~= ws@.take(i as int));
            assert(out@ =~= old(out)@ + words_le(ws@.take(i + 1)));
        }
        i = i + 1;
    }
    proof {
        assert(ws@.take(ws@.len() as int) =~= ws@);
    }
}

/// Reads blocks from `offset` while it is below `limit`, as `read_blocks`
/// states; on success returns the offset reached and the words.
pub(crate) fn read_stream_blocks(c: &[u8], start: usize, limit: usize) -> (r: Result<
    (usize, Vec<u64>),
    &'static str,
>)
    requires
        limit <= c@.len(),
    ensures
        match read_blocks(c@, start as int, limit as int, start_table(), Seq::empty()) {
            Ok(v) => r matches Ok(x) && x.0 == v.0 && x.1@ == v.1,
            Err(m) => r == Err::<(usize, Vec<u64>), &'static str>(m),
        },
{
    let mut table = AdaptiveTable::new_skewed();
    let mut offset: usize = start;
    let mut decoded: Vec<u64> = Vec::new();
    let mut done = false;
    let ghost whole = read_blocks(c@, start as int, limit as int, start_table(), Seq::empty());
    while offset < limit && !done
        invariant
            limit <= c@.len(),
            table@.wf(),
            whole == read_blocks(c@, start as int, limit as int, start_table(), Seq::empty()),
            done ==> whole == Ok::<(int, Seq<u64>), &'static str>((offset as int, decoded@)),
            !done ==> whole == read_blocks(c@, offset as int, limit as int, table@, decoded@),
        decreases c@.len() - offset, if done {
            0int
        } else {
            1int
        },
    {
        let ghost o0 = offset as int;
        let ghost t0 = table@;
        let ghost d0 = decoded@;
        proof {
            crate::stream::block_reader::lemma_read_block_advances(c@, o0, t0, d0);
        }
        match BlockReader::read_block_u64(c, &mut offset, &mut table, &mut decoded) {
            Err(e) => {
                return Err(e);
            },
            Ok(progressed) => {
                if !progressed {
                    done = true;
                }
            },
        }
    }
    Ok((offset, decoded))
}

/// Decompress a Tether compressed byte stream.
pub fn decompress(compressed: &[u8]) -> (r: Result<Vec<u8>, &'static str>)
    ensures
        match decompressed(compressed@) {
            Ok(b) => r matches Ok(v) && v@ == b,
            Err(m) => r == Err::<Vec<u8>, &'static str>(m),
        },
{
    let len = compressed.len();
    if len < 7 {
        return Err("Payload too short for Tether header");
    }
    if !has_magic(compressed) {
        return Err("Invalid Tether magic bytes");
    }
    let rem = compressed[6] as usize;
    if StreamDataType::from_u8(compressed[5]).is_none() {
        return Err("Unknown stream data type");
    }
    let limit: usize = if len >= rem {
        len - rem
    } else {
        0
    };
    let (offset, decoded) = match read_stream_blocks(compressed, 7, limit) {
        Ok(x) => x,
        Err(e) => {
            return Err(e);
        },
    };
    let mut out: Vec<u8> = Vec::new();
    push_words(decoded.as_slice(), &mut out);
    if rem > 0 && offset < len {
        let take: usize = if rem < len - offset {
            rem
        } else {
            len - offset
        };
        let tail = &compressed[offset..offset + take];
        push_slice(&mut out, tail);
    }
    proof {
        assert(out@ =~= words_le(decoded@) + stream_tail(compressed@, offset as int, rem as int));
    }
    Ok(out)
}

/// Compress an i64 numeric time-series slice.
pub fn compress_i64(samples: &[i64], budget: MemoryBudget) -> (out: Vec<u8>)
    requires
        samples@.len() > 0 ==> budget.block_samples > 0,
    ensures
        out@ == compressed_bytes(words_le(as_words(samples@)), budget),
{
    let mut bytes: Vec<u8> = Vec::new();
    let mut i: usize = 0;
    proof {
        assert(as_words(samples@).take(0) =~= Seq::<u64>::empty());
    }
    while i < samples.len()
        invariant
            i <= samples@.len(),
            bytes@ == words_le(as_words(samples@).take(i as int)),
        decreases samples@.len() - i,
    {
        push_le(&mut bytes, samples[i] as u64, 8);
        proof {
            let ws = as_words(samples@);
            assert(ws.take(i + 1).drop_last() =~= ws.take(i as int));
            assert(bytes@ =~= words_le(ws.take(i + 1)));
        }
        i = i + 1;
    }
    proof {
        assert(as_words(samples@).take(samples@.len() as int) =~= as_words(samples@));
    }
    compress(bytes.as_slice(), budget)
}

/// The whole little-endian 8-byte words of `bytes`, as signed samples.
pub(crate) fn bytes_to_i64(bytes: &[u8]) -> (out: Vec<i64>)
    ensures
        out@ == le_words(bytes@),
{
    let num = bytes.len() / 8;
    let mut out: Vec<i64> = Vec::new();
    let mut i: usize = 0;
    while i < num
        invariant
            i <= num == bytes@.len() / 8,
            out@ == le_words(bytes@).take(i as int),
        decreases num - i,
    {
        let bl = bytes.len();
        assert(8 * i + 8 <= bl) by (nonlinear_arith)
            requires
                i < num,
                num == bl / 8,
        ;
        let v = read_le(bytes, 8 * i, 8);
        #[verifier::truncate]
        let w: i64 = v as i64;
        out.push(w);
        proof {
            assert(out@ =~= le_words(bytes@).take(i + 1));
        }
        i = i + 1;
    }
    proof {
        assert(out@ =~= le_words(bytes@));
    }
    out
}

/// Decompress into an i64 numeric time-series slice.
pub fn decompress_i64(compressed: &[u8]) -> (r: Result<Vec<i64>, &'static str>)
    ensures
        match i64_decompressed(compressed@) {
            Ok(s) => r matches Ok(v) && v@ == s,
            Err(m) => r == Err::<Vec<i64>, &'static str>(m),
        },
{
    let bytes = decompress(compressed)?;
    Ok(bytes_to_i64(bytes.as_slice()))
}

/// Writes `ws` as Gorilla XOR blocks of at most `bs` words.
pub(crate) fn write_xor_blocks(ws: &[u64], bs: usize, table: &mut AdaptiveTable, out: &mut Vec<u8>)
    requires
        ws@.len() > 0 ==> bs > 0,
        old(table)@ == start_table(),
    ensures
        final(out)@ == old(out)@ + if ws@.len() == 0 {
            Seq::empty()
        } else {
            xor_blocks(ws@, bs as nat, ws@[0], start_table())
        },
{
    let n = ws.len();
    if n == 0 {
        proof {
            assert(old(out)@ + Seq::<u8>::empty() =~= old(out)@);
        }
        return;
    }
    proof {
        crate::entropy::adaptive_table::lemma_normalized_wf(skewed_raw());
        assert(ws@.skip(0) =~= ws@);
    }
    let mut init: u64 = ws[0];
    let mut start: usize = 0;
    while start < n
        invariant
            start <= n == ws@.len(),
            n > 0,
            bs > 0,
            table@.wf(),
            old(out)@ + xor_blocks(ws@, bs as nat, ws@[0], start_table()) == out@ + xor_blocks(
                ws@.skip(start as int),
                bs as nat,
                init,
                table@,
            ),
        decreases n - start,
    {
        let end: usize = if n - start > bs {
            start + bs
        } else {
            n
        };
        let ghost rest = ws@.skip(start as int);
        let ghost t0 = table@;
        let ghost o0 = out@;
        let ghost i0 = init;
        let chunk = &ws[start..end];
        proof {
            let k = chunk_len(rest.len(), bs as nat) as int;
            assert(rest.take(k) =~= chunk@);
            assert(rest.skip(k) =~= ws@.skip(end as int));
        }
        BlockWriter::write_xor_u64_block(chunk, init, table, out);
        init = ws[end - 1];
        start = end;
        proof {
            assert(chunk@.last() == init);
            assert(out@ + xor_blocks(ws@.skip(end as int), bs as nat, init, table@) =~= o0
                + xor_blocks(rest, bs as nat, i0, t0));
        }
    }
    proof {
        assert(ws@.skip(n as int) =~= Seq::<u64>::empty());
        assert(out@ + Seq::<u8>::empty() =~= out@);
    }
}

/// Compresses the 64-bit patterns of floating-point samples with Gorilla XOR
/// blocks.
pub fn compress_f64_bits(bits: &[u64], budget: MemoryBudget) -> (out: Vec<u8>)
    requires
        bits@.len() > 0 ==> budget.block_samples > 0,
    ensures
        out@ == compressed_f64_bits(bits@, budget),
{
    let mut out: Vec<u8> = Vec::new();
    push_header(&mut out, budget.profile, 2, 0);
    let mut table = AdaptiveTable::new_skewed();
    write_xor_blocks(bits, budget.block_samples, &mut table, &mut out);
    out
}

/// Decompresses a floating-point stream into the 64-bit patterns of its
/// samples.
pub fn decompress_f64_bits(compressed: &[u8]) -> (r: Result<Vec<u64>, &'static str>)
    ensures
        match f64_bits_decompressed(compressed@) {
            Ok(s) => r matches Ok(v) && v@ == s,
            Err(m) => r == Err::<Vec<u64>, &'static str>(m),
        },
{
    let len = compressed.len();
    if len < 7 {
        return Err("Payload too short for Tether header");
    }
    if !has_magic(compressed) {
        return Err("Invalid Tether magic bytes");
    }
    match read_stream_blocks(compressed, 7, len) {
        Ok(x) => Ok(x.1),
        Err(e) => Err(e),
    }
}

} // verus!
