//! Wraparound-aware accumulation: turning the readings of a 16-bit counter
//! into a 64-bit running total.
//!
//! The device's counter only ever counts up, so a reading below the one before
//! it means that the counter passed 65535 and began again at 0. One such
//! wraparound between two readings is assumed: an advance of 65536 or more
//! cannot be told from a smaller one and is counted short.

use vstd::prelude::*;

verus! {

/// The number of values that the device's 16-bit counter runs through.
pub const COUNTER_SPAN: u32 = 0x1_0000;

/// The advance of the counter from the reading `last` to the reading
/// `current`: their difference modulo 65536.
pub open spec fn counter_advance(last: u16, current: u16) -> int {
    (current - last) % (COUNTER_SPAN as int)
}

/// Computes by how much the counter advanced between two readings.
///
/// Where `current` is below `last` the counter has wrapped, and the advance
/// is what was left up to 65536 plus `current`.
pub fn wraparound_delta(last: u16, current: u16) -> (delta: u32)
    ensures
        delta == counter_advance(last, current),
        current >= last ==> delta == current - last,
        current < last ==> delta == (COUNTER_SPAN - last) + current,
        delta < COUNTER_SPAN,
{
    let mut delta: i32 = (current as i32) - (last as i32);
    if delta < 0 {
        // wraparound
        delta = (0x1_0000 - (last as i32)) + (current as i32);
    }
    delta as u32
}

/// The state of the accumulator: the previous reading and the running total.
///
/// The running total lives in a 64-bit cell and is added to as such a cell is:
/// modulo 2^64.
#[derive(Clone, Copy, Debug, PartialEq, Eq)]
pub struct Accumulator {
    /// The reading observed last, 0 before the first.
    pub last_sample: u16,
    /// The sum of all advances observed so far.
    pub total: u64,
}

impl Accumulator {
    /// The accumulator after it has observed `sample`.
    pub open spec fn observed(self, sample: u16) -> Accumulator {
        Accumulator {
            last_sample: sample,
            total: ((self.total + counter_advance(self.last_sample, sample))
                % 0x1_0000_0000_0000_0000) as u64,
        }
    }

    /// The accumulator after it has observed each of `samples` in turn.
    pub open spec fn observed_all(self, samples: Seq<u16>) -> Accumulator
        decreases samples.len(),
    {
        if samples.len() == 0 {
            self
        } else {
            self.observed_all(samples.drop_last()).observed(samples.last())
        }
    }

    /// The sum of the running total and of the advances over `samples`, as a
    /// number without bound: what the total would be in a cell of any width.
    pub open spec fn unbounded_total(self, samples: Seq<u16>) -> int
        decreases samples.len(),
    {
        if samples.len() == 0 {
            self.total as int
        } else {
            self.unbounded_total(samples.drop_last()) + counter_advance(
                self.observed_all(samples.drop_last()).last_sample,
                samples.last(),
            )
        }
    }

    /// An accumulator that has observed nothing: previous reading 0, total 0.
    pub fn new() -> (accumulator: Accumulator)
        ensures
            accumulator == (Accumulator { last_sample: 0, total: 0 }),
    {
        Accumulator { last_sample: 0, total: 0 }
    }

    /// Observes one sample: adds the counter's advance since the previous
    /// reading to the running total and remembers the sample as the previous
    /// reading. Returns the advance.
    ///
    /// The total never moves backward, short of the 64-bit cell itself
    /// running over.
    pub fn observe(&mut self, sample: u16) -> (delta: u32)
        ensures
            delta == counter_advance(old(self).last_sample, sample),
            *final(self) == old(self).observed(sample),
            final(self).last_sample == sample,
            old(self).total + delta <= u64::MAX ==> final(self).total == old(self).total + delta,
            old(self).total + delta <= u64::MAX <==> final(self).total >= old(self).total,
    {
        let delta = wraparound_delta(self.last_sample, sample);
        self.total = self.total.wrapping_add(delta as u64);
        self.last_sample = sample;
        delta
    }
}

/// One step moves the running total forward by the counter's advance, and
/// backward only where the 64-bit cell runs over.
pub proof fn lemma_step_moves_forward(before: Accumulator, sample: u16)
    ensures
        0 <= counter_advance(before.last_sample, sample) < COUNTER_SPAN,
        before.total + counter_advance(before.last_sample, sample) <= u64::MAX
            ==> before.observed(sample).total == before.total + counter_advance(
            before.last_sample,
            sample,
        ),
        before.total + counter_advance(before.last_sample, sample) <= u64::MAX
            <==> before.observed(sample).total >= before.total,
{
}

/// Observing a sequence in two parts is observing it at once.
pub proof fn lemma_observing_in_parts(start: Accumulator, head: Seq<u16>, tail: Seq<u16>)
    ensures
        start.observed_all(head + tail) == start.observed_all(head).observed_all(tail),
    decreases tail.len(),
{
    if tail.len() == 0 {
        assert(head + tail =~= head);
    } else {
        lemma_observing_in_parts(start, head, tail.drop_last());
        assert((head + tail).drop_last() =~= head + tail.drop_last());
    }
}

/// The unbounded total never falls below the total that the sequence began
/// with, and while it fits the 64-bit cell it is the running total.
pub proof fn lemma_total_within_the_cell(start: Accumulator, samples: Seq<u16>)
    ensures
        start.total <= start.unbounded_total(samples),
        start.unbounded_total(samples) <= u64::MAX ==> start.observed_all(samples).total
            == start.unbounded_total(samples),
    decreases samples.len(),
{
    if samples.len() > 0 {
        lemma_total_within_the_cell(start, samples.drop_last());
        lemma_step_moves_forward(start.observed_all(samples.drop_last()), samples.last());
    }
}

/// The running total is non-decreasing: over any stretch of a sequence of
/// samples during which the 64-bit cell does not run over, from the state
/// after `i` samples to the state after `j`, the total has not moved backward.
pub proof fn lemma_running_total_non_decreasing(
    start: Accumulator,
    samples: Seq<u16>,
    i: int,
    j: int,
)
    requires
        0 <= i <= j <= samples.len(),
        start.observed_all(samples.take(i)).unbounded_total(samples.subrange(i, j)) <= u64::MAX,
    ensures
        start.observed_all(samples.take(i)).total <= start.observed_all(samples.take(j)).total,
{
    let reached = start.observed_all(samples.take(i));
    lemma_observing_in_parts(start, samples.take(i), samples.subrange(i, j));
    assert(samples.take(i) + samples.subrange(i, j) =~= samples.take(j));
    lemma_total_within_the_cell(reached, samples.subrange(i, j));
}

} // verus!
