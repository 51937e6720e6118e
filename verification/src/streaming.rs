//! Incremental chunk-by-chunk streaming compressor.
//!
//! The compressor is a state machine: each call takes the samples it is
//! given and returns the bytes that go out next. Written one after another,
//! those bytes form a stream that `decompress_i64` reads back.

use vstd::prelude::*;
use crate::codec::{push_header, stream_header, start_table};
use crate::entropy::adaptive_table::{AdaptiveTable, TableView};
use crate::le_bytes::push_slice;
use crate::memory_budget::MemoryBudget;
use crate::stream::block_writer::{BlockWriter, auto_block, auto_next_state};

verus! {

/// The abstract state of a streaming compressor.
pub ghost struct WriterState {
    pub budget: MemoryBudget,
    /// Samples accepted but not yet written out in a block.
    pub buffer: Seq<i64>,
    pub table: TableView,
    /// Predictor seed of the next block: last sample and history.
    pub init: i64,
    pub hist: Seq<i64>,
    /// Whether the stream header went out.
    pub header: bool,
}

/// A fresh compressor.
pub open spec fn writer_new(budget: MemoryBudget) -> WriterState {
    WriterState {
        budget,
        buffer: Seq::empty(),
        table: start_table(),
        init: 0,
        hist: seq![0i64, 0i64, 0i64],
        header: false,
    }
}

/// Writing the header if it has not gone out yet.
pub open spec fn writer_header(s: WriterState) -> (WriterState, Seq<u8>) {
    if s.header {
        (s, Seq::empty())
    } else {
        (WriterState { header: true, ..s }, stream_header(s.budget.profile, 1, 0))
    }
}

/// Writing the buffered samples out as one block, if there are any.
pub open spec fn writer_flush(s: WriterState) -> (WriterState, Seq<u8>) {
    if s.buffer.len() == 0 {
        (s, Seq::empty())
    } else {
        let blk = auto_block(s.buffer, s.init, s.hist, s.table);
        let st = auto_next_state(s.buffer, s.init, s.hist);
        (WriterState { buffer: Seq::empty(), table: blk.1, init: st.0, hist: st.1, ..s }, blk.0)
    }
}

/// Accepting one sample: the header goes out first; a sample that starts a
/// block while the seed is zero becomes the seed; a full buffer is flushed.
pub open spec fn writer_sample(s: WriterState, x: i64) -> (WriterState, Seq<u8>) {
    let h = writer_header(s);
    let s1 = h.0;
    let s2 = if s1.buffer.len() == 0 && s1.init == 0 {
        WriterState { init: x, hist: seq![x, x, x], ..s1 }
    } else {
        s1
    };
    let s3 = WriterState { buffer: s2.buffer.push(x), ..s2 };
    if s3.buffer.len() >= s3.budget.block_samples {
        let f = writer_flush(s3);
        (f.0, h.1 + f.1)
    } else {
        (s3, h.1)
    }
}

/// Accepting samples one after another.
pub open spec fn writer_samples(s: WriterState, xs: Seq<i64>) -> (WriterState, Seq<u8>)
    decreases xs.len(),
{
    if xs.len() == 0 {
        (s, Seq::empty())
    } else {
        let r = writer_samples(s, xs.drop_last());
        let st = writer_sample(r.0, xs.last());
        (st.0, r.1 + st.1)
    }
}

/// The bytes that finishing the stream writes: the header if it has not
/// gone out, then the buffered samples.
pub open spec fn writer_finish(s: WriterState) -> Seq<u8> {
    let h = writer_header(s);
    h.1 + writer_flush(h.0).1
}

/// Incremental chunk-by-chunk streaming compressor.
pub struct TetherWriter {
    budget: MemoryBudget,
    buffer: Vec<i64>,
    table: AdaptiveTable,
    initial_sample: i64,
    initial_history: [i64; 3],
    header_written: bool,
}

impl View for TetherWriter {
    type V = WriterState;

    closed spec fn view(&self) -> WriterState {
        WriterState {
            budget: self.budget,
            buffer: self.buffer@,
            table: self.table@,
            init: self.initial_sample,
            hist: self.initial_history@,
            header: self.header_written,
        }
    }
}

impl TetherWriter {
    /// The table of the compressor is fit for coding.
    pub closed spec fn wf(&self) -> bool {
        self.table@.wf()
    }

    pub fn new(budget: MemoryBudget) -> (w: Self)
        ensures
            w@ == writer_new(budget),
            w.wf(),
    {
        let w = TetherWriter {
            budget,
            buffer: Vec::new(),
            table: AdaptiveTable::new_skewed(),
            initial_sample: 0,
            initial_history: [0, 0, 0],
            header_written: false,
        };
        proof {
            assert(w.initial_history@ =~= seq![0i64, 0i64, 0i64]);
            assert(w@ =~= writer_new(budget));
        }
        w
    }

    fn ensure_header(&mut self, out: &mut Vec<u8>)
        ensures
            final(self).table == old(self).table,
            final(self)@ == writer_header(old(self)@).0,
            final(out)@ == old(out)@ + writer_header(old(self)@).1,
    {
        if !self.header_written {
            push_header(out, self.budget.profile, 1, 0);
            self.header_written = true;
        } else {
            proof {
                assert(out@ =~= old(out)@ + Seq::<u8>::empty());
            }
        }
    }

    fn flush_into(&mut self, out: &mut Vec<u8>)
        requires
            old(self).wf(),
        ensures
            final(self).wf(),
            final(self)@ == writer_flush(old(self)@).0,
            final(out)@ == old(out)@ + writer_flush(old(self)@).1,
    {
        if self.buffer.len() == 0 {
            proof {
                assert(out@ =~= old(out)@ + Seq::<u8>::empty());
            }
            return;
        }
        let r = BlockWriter::write_auto_i64_block(
            self.buffer.as_slice(),
            self.initial_sample,
            self.initial_history,
            &mut self.table,
            out,
        );
        self.initial_sample = r.0;
        self.initial_history = r.1;
        self.buffer.clear();
        proof {
            assert(self@ =~= writer_flush(old(self)@).0);
        }
    }

    /// Accepts one sample; returns the bytes to write out.
    pub fn write_sample(&mut self, sample: i64) -> (bytes: Vec<u8>)
        requires
            old(self).wf(),
        ensures
            final(self).wf(),
            (final(self)@, bytes@) == writer_sample(old(self)@, sample),
    {
        let mut out: Vec<u8> = Vec::new();
        self.ensure_header(&mut out);
        if self.buffer.len() == 0 && self.initial_sample == 0 {
            self.initial_sample = sample;
            self.initial_history = [sample, sample, sample];
            proof {
                assert(self.initial_history@ =~= seq![sample, sample, sample]);
            }
        }
        self.buffer.push(sample);
        if self.buffer.len() >= self.budget.block_samples {
            self.flush_into(&mut out);
        }
        proof {
            let h = writer_header(old(self)@);
            let s1 = h.0;
            let s2 = if s1.buffer.len() == 0 && s1.init == 0 {
                WriterState { init: sample, hist: seq![sample, sample, sample], ..s1 }
            } else {
                s1
            };
            let s3 = WriterState { buffer: s2.buffer.push(sample), ..s2 };
            if s3.buffer.len() >= s3.budget.block_samples {
                assert(out@ =~= h.1 + writer_flush(s3).1);
            } else {
                assert(self@ =~= s3);
                assert(out@ =~= h.1);
            }
        }
        out
    }

    /// Accepts samples one after another; returns the bytes to write out.
    pub fn write_samples(&mut self, samples: &[i64]) -> (bytes: Vec<u8>)
        requires
            old(self).wf(),
        ensures
            final(self).wf(),
            (final(self)@, bytes@) == writer_samples(old(self)@, samples@),
    {
        let mut out: Vec<u8> = Vec::new();
        let mut i: usize = 0;
        proof {
            assert(samples@.take(0) =~= Seq::<i64>::empty());
        }
        while i < samples.len()
            invariant
                i <= samples@.len(),
                self.wf(),
                (self@, out@) == writer_samples(old(self)@, samples@.take(i as int)),
            decreases samples@.len() - i,
        {
            let b = self.write_sample(samples[i]);
            let ghost o0 = out@;
            push_slice(&mut out, b.as_slice());
            proof {
                assert(samples@.take(i + 1).drop_last() =~= samples@.take(i as int));
                assert(out@ =~= o0 + b@);
            }
            i = i + 1;
        }
        proof {
            assert(samples@.take(samples@.len() as int) =~= samples@);
        }
        out
    }

    /// Writes the buffered samples out as one block; returns its bytes.
    pub fn flush_block(&mut self) -> (bytes: Vec<u8>)
        requires
            old(self).wf(),
        ensures
            final(self).wf(),
            (final(self)@, bytes@) == writer_flush(old(self)@),
    {
        let mut out: Vec<u8> = Vec::new();
        self.flush_into(&mut out);
        proof {
            assert(out@ =~= writer_flush(old(self)@).1);
        }
        out
    }

    /// Ends the stream; returns the bytes still to write out.
    pub fn finish(self) -> (bytes: Vec<u8>)
        requires
            self.wf(),
        ensures
            bytes@ == writer_finish(self@),
    {
        let mut w = self;
        let mut out: Vec<u8> = Vec::new();
        w.ensure_header(&mut out);
        w.flush_into(&mut out);
        proof {
            assert(out@ =~= writer_finish(self@));
        }
        out
    }
}

} // verus!
