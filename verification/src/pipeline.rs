//! The worker's pipeline: framing and accumulation fused into one step per
//! byte of the stream.
//!
//! The stream is joined somewhere in the middle of a line, so the first sample
//! that the framer emits may be the tail of a longer number. The pipeline
//! discards it; every later sample counts.

use crate::accumulator::{counter_advance, Accumulator};
use crate::framing::{framed_pending, framed_samples, framer_emits, framer_next, Framer};
use vstd::prelude::*;

verus! {

/// What a pipeline is made of, as plain values.
pub struct PipelineState {
    /// The token that the framer holds.
    pub pending: Seq<u8>,
    /// Whether the first sample of the stream has been seen and discarded.
    pub synchronised: bool,
    /// The accumulator that the later samples go to.
    pub accumulator: Accumulator,
}

impl PipelineState {
    /// The state of a pipeline at the start of a stream.
    pub open spec fn fresh() -> PipelineState {
        PipelineState {
            pending: Seq::empty(),
            synchronised: false,
            accumulator: Accumulator { last_sample: 0, total: 0 },
        }
    }

    /// The sample that the pipeline counts on `byte`: the one that the framer
    /// emits, unless it is the first of the stream.
    pub open spec fn counted(self, byte: u8) -> Option<u16> {
        if self.synchronised {
            framer_emits(self.pending, byte)
        } else {
            None
        }
    }

    /// The advance that the pipeline publishes on `byte`: that of the counter
    /// up to the sample counted, if one is.
    pub open spec fn published(self, byte: u8) -> Option<u32> {
        match self.counted(byte) {
            Some(sample) => Some(counter_advance(self.accumulator.last_sample, sample) as u32),
            None => None,
        }
    }

    /// The state after `byte`.
    pub open spec fn fed(self, byte: u8) -> PipelineState {
        PipelineState {
            pending: framer_next(self.pending, byte),
            synchronised: self.synchronised || framer_emits(self.pending, byte) is Some,
            accumulator: match self.counted(byte) {
                Some(sample) => self.accumulator.observed(sample),
                None => self.accumulator,
            },
        }
    }

    /// The state after each of `bytes` in turn.
    pub open spec fn fed_all(self, bytes: Seq<u8>) -> PipelineState
        decreases bytes.len(),
    {
        if bytes.len() == 0 {
            self
        } else {
            self.fed_all(bytes.drop_last()).fed(bytes.last())
        }
    }
}

/// The samples that count among `samples`, the samples framed since the state
/// that `synchronised` belongs to: all of them once the stream's first sample
/// has been discarded, and all but the first before.
pub open spec fn counted_samples(synchronised: bool, samples: Seq<u16>) -> Seq<u16> {
    if synchronised || samples.len() == 0 {
        samples
    } else {
        samples.skip(1)
    }
}

/// The worker's state: a framer, the accumulator behind it, and whether the
/// stream's first sample has been discarded yet.
#[derive(Debug)]
pub struct Pipeline {
    framer: Framer,
    accumulator: Accumulator,
    synchronised: bool,
}

impl View for Pipeline {
    type V = PipelineState;

    closed spec fn view(&self) -> PipelineState {
        PipelineState {
            pending: self.framer@,
            synchronised: self.synchronised,
            accumulator: self.accumulator,
        }
    }
}

impl Pipeline {
    /// A pipeline at the start of a stream: no token begun, nothing discarded,
    /// nothing counted.
    pub fn new() -> (pipeline: Pipeline)
        ensures
            pipeline@ == PipelineState::fresh(),
    {
        Pipeline { framer: Framer::new(), accumulator: Accumulator::new(), synchronised: false }
    }

    /// Consumes one byte of the stream.
    ///
    /// Where the byte ends a token, its sample is discarded if it is the first
    /// of the stream and observed by the accumulator otherwise. Returns the
    /// advance that the running total grew by, for the caller to publish, and
    /// `None` where no sample was counted.
    pub fn feed(&mut self, byte: u8) -> (delta: Option<u32>)
        ensures
            final(self)@ == old(self)@.fed(byte),
            delta == old(self)@.published(byte),
            delta is None ==> final(self)@.accumulator == old(self)@.accumulator,
            !old(self)@.synchronised ==> delta is None,
    {
        match self.framer.push(byte) {
            None => None,
            Some(sample) => {
                if self.synchronised {
                    Some(self.accumulator.observe(sample))
                } else {
                    self.synchronised = true;
                    None
                }
            },
        }
    }

    /// Whether the first sample of the stream has been seen and discarded.
    pub fn is_synchronised(&self) -> (synchronised: bool)
        ensures
            synchronised == self@.synchronised,
    {
        self.synchronised
    }

    /// The running total counted so far.
    pub fn total(&self) -> (total: u64)
        ensures
            total == self@.accumulator.total,
    {
        self.accumulator.total
    }
}

/// A pipeline accumulates the samples of its stream, all but the first: after
/// any bytes it is in the state of a framer that has consumed them and of an
/// accumulator that has observed the samples framed from them that count.
pub proof fn lemma_pipeline_accumulates_stream(start: PipelineState, bytes: Seq<u8>)
    ensures
        start.fed_all(bytes).pending == framed_pending(start.pending, bytes),
        start.fed_all(bytes).synchronised == (start.synchronised || framed_samples(
            start.pending,
            bytes,
        ).len() > 0),
        start.fed_all(bytes).accumulator == start.accumulator.observed_all(
            counted_samples(start.synchronised, framed_samples(start.pending, bytes)),
        ),
    decreases bytes.len(),
{
    if bytes.len() > 0 {
        lemma_pipeline_accumulates_stream(start, bytes.drop_last());
        let before = start.fed_all(bytes.drop_last());
        let earlier = framed_samples(start.pending, bytes.drop_last());
        match framer_emits(before.pending, bytes.last()) {
            Some(sample) => {
                let counted = counted_samples(start.synchronised, earlier.push(sample));
                if before.synchronised {
                    assert(counted =~= counted_samples(start.synchronised, earlier).push(sample));
                    assert(counted.drop_last() =~= counted_samples(start.synchronised, earlier));
                } else {
                    assert(counted =~= Seq::<u16>::empty());
                }
            },
            None => {},
        }
    }
}

} // verus!
