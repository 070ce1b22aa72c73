//! What holds of number framing on every stream.

use crate::framing::{
    all_digits, decimal_value, framed_pending, framed_samples, framer_emits, is_digit_byte,
    lemma_token_end, lemma_token_start, next_sample, no_digits, read_samples, sample_of,
    stream_samples, token_end, token_start,
};
use vstd::prelude::*;

verus! {

/// A stream laid out as tokens: each run of `runs` followed by the delimiters
/// of `delims` at the same index.
pub open spec fn delimited(runs: Seq<Seq<u8>>, delims: Seq<Seq<u8>>) -> Seq<u8>
    decreases runs.len(),
{
    if runs.len() == 0 {
        Seq::empty()
    } else {
        delimited(runs.drop_last(), delims.drop_last()) + runs.last() + delims.last()
    }
}

/// The samples of the runs of `runs`, one for each, in order.
pub open spec fn samples_of_runs(runs: Seq<Seq<u8>>) -> Seq<u16> {
    Seq::new(runs.len(), |i: int| sample_of(runs[i]))
}

/// Framing a stream in two parts gives what framing it at once gives: the
/// second part is framed from the token that the first part left pending.
pub proof fn lemma_framing_in_parts(token: Seq<u8>, head: Seq<u8>, tail: Seq<u8>)
    ensures
        framed_pending(token, head + tail) == framed_pending(framed_pending(token, head), tail),
        framed_samples(token, head + tail) == framed_samples(token, head) + framed_samples(
            framed_pending(token, head),
            tail,
        ),
    decreases tail.len(),
{
    if tail.len() == 0 {
        assert(head + tail =~= head);
        assert(framed_samples(token, head) + Seq::<u16>::empty() =~= framed_samples(token, head));
    } else {
        lemma_framing_in_parts(token, head, tail.drop_last());
        assert((head + tail).drop_last() =~= head + tail.drop_last());
        assert((head + tail).last() == tail.last());
        let middle = framed_pending(token, head);
        let earlier = framed_samples(token, head) + framed_samples(middle, tail.drop_last());
        match framer_emits(framed_pending(middle, tail.drop_last()), tail.last()) {
            Some(sample) => {
                assert(earlier.push(sample) =~= framed_samples(token, head) + framed_samples(
                    middle,
                    tail.drop_last(),
                ).push(sample));
            },
            None => {},
        }
    }
}

/// Digits only extend the pending token: none of them emits a sample.
pub proof fn lemma_framing_digits(token: Seq<u8>, digits: Seq<u8>)
    requires
        all_digits(digits),
    ensures
        framed_pending(token, digits) == token + digits,
        framed_samples(token, digits) == Seq::<u16>::empty(),
    decreases digits.len(),
{
    if digits.len() == 0 {
        assert(token + digits =~= token);
    } else {
        lemma_framing_digits(token, digits.drop_last());
        assert(is_digit_byte(digits[digits.len() - 1]));
        assert((token + digits.drop_last()).push(digits.last()) =~= token + digits);
    }
}

/// A run of delimiters ends the pending token, if there is one, and emits
/// nothing else: however long the run and whatever its bytes, it never shows
/// as a sample of its own.
pub proof fn lemma_framing_delimiters(token: Seq<u8>, noise: Seq<u8>)
    requires
        no_digits(noise),
    ensures
        framed_pending(token, noise) == if noise.len() == 0 {
            token
        } else {
            Seq::empty()
        },
        framed_samples(token, noise) == if noise.len() > 0 && token.len() > 0 {
            seq![sample_of(token)]
        } else {
            Seq::empty()
        },
    decreases noise.len(),
{
    if noise.len() > 0 {
        lemma_framing_delimiters(token, noise.drop_last());
        assert(!is_digit_byte(noise[noise.len() - 1]));
        if noise.len() == 1 {
            assert(noise.drop_last().len() == 0);
            if token.len() > 0 {
                assert(Seq::<u16>::empty().push(sample_of(token)) =~= seq![sample_of(token)]);
            }
        }
    }
}

/// A stream without a digit holds no sample.
pub proof fn lemma_no_sample_without_digits(noise: Seq<u8>)
    requires
        no_digits(noise),
    ensures
        stream_samples(noise) == Seq::<u16>::empty(),
{
    lemma_framing_delimiters(Seq::empty(), noise);
}

/// Framing yields the samples of the digit runs, in order, whatever separates
/// them.
///
/// The stream is any leading delimiters, then each run of digits followed by
/// one or more delimiters, then any digits of a token that is not ended yet.
/// Its samples are exactly those of the runs: each is the decimal value of its
/// run where that fits sixteen bits, and 0 where it does not. The digits at
/// the end stay pending.
pub proof fn lemma_framing_of_delimited_runs(
    lead: Seq<u8>,
    runs: Seq<Seq<u8>>,
    delims: Seq<Seq<u8>>,
    rest: Seq<u8>,
)
    requires
        no_digits(lead),
        runs.len() == delims.len(),
        forall|i: int| 0 <= i < runs.len() ==> (#[trigger] runs[i]).len() > 0 && all_digits(runs[i]),
        forall|i: int|
            0 <= i < delims.len() ==> (#[trigger] delims[i]).len() > 0 && no_digits(delims[i]),
        all_digits(rest),
    ensures
        stream_samples(lead + delimited(runs, delims) + rest) == samples_of_runs(runs),
        framed_pending(Seq::empty(), lead + delimited(runs, delims) + rest) == rest,
        forall|i: int|
            0 <= i < runs.len() && decimal_value(#[trigger] runs[i]) <= u16::MAX
                ==> stream_samples(lead + delimited(runs, delims) + rest)[i] == decimal_value(
                runs[i],
            ),
        forall|i: int|
            0 <= i < runs.len() && decimal_value(#[trigger] runs[i]) > u16::MAX ==> stream_samples(
                lead + delimited(runs, delims) + rest,
            )[i] == 0,
{
    let body = lead + delimited(runs, delims);
    lemma_framing_of_ended_runs(lead, runs, delims);
    lemma_framing_in_parts(Seq::empty(), body, rest);
    lemma_framing_digits(Seq::empty(), rest);
    assert(Seq::<u8>::empty() + rest =~= rest);
    assert(samples_of_runs(runs) + Seq::<u16>::empty() =~= samples_of_runs(runs));
}

/// The part of `lemma_framing_of_delimited_runs` up to the last delimiter.
proof fn lemma_framing_of_ended_runs(lead: Seq<u8>, runs: Seq<Seq<u8>>, delims: Seq<Seq<u8>>)
    requires
        no_digits(lead),
        runs.len() == delims.len(),
        forall|i: int| 0 <= i < runs.len() ==> (#[trigger] runs[i]).len() > 0 && all_digits(runs[i]),
        forall|i: int|
            0 <= i < delims.len() ==> (#[trigger] delims[i]).len() > 0 && no_digits(delims[i]),
    ensures
        stream_samples(lead + delimited(runs, delims)) == samples_of_runs(runs),
        framed_pending(Seq::empty(), lead + delimited(runs, delims)) == Seq::<u8>::empty(),
    decreases runs.len(),
{
    let fresh = Seq::<u8>::empty();
    if runs.len() == 0 {
        assert(lead + delimited(runs, delims) =~= lead);
        lemma_framing_delimiters(fresh, lead);
        assert(samples_of_runs(runs) =~= Seq::<u16>::empty());
    } else {
        let before = lead + delimited(runs.drop_last(), delims.drop_last());
        let run = runs.last();
        let delim = delims.last();
        lemma_framing_of_ended_runs(lead, runs.drop_last(), delims.drop_last());
        assert(lead + delimited(runs, delims) =~= before + run + delim);
        assert(run == runs[runs.len() - 1]);
        assert(delim == delims[delims.len() - 1]);
        lemma_framing_in_parts(fresh, before + run, delim);
        lemma_framing_in_parts(fresh, before, run);
        lemma_framing_digits(fresh, run);
        assert(fresh + run =~= run);
        lemma_framing_delimiters(run, delim);
        assert(samples_of_runs(runs) =~= samples_of_runs(runs.drop_last()) + Seq::<u16>::empty()
            + seq![sample_of(run)]);
    }
}

/// A framer that holds digits only goes on holding digits only, whatever it
/// consumes: so does every framer since the start of its stream.
pub proof fn lemma_pending_holds_digits(token: Seq<u8>, bytes: Seq<u8>)
    requires
        all_digits(token),
    ensures
        all_digits(framed_pending(token, bytes)),
    decreases bytes.len(),
{
    if bytes.len() > 0 {
        lemma_pending_holds_digits(token, bytes.drop_last());
    }
}

/// Where delimiters only lie between `from` and `first`, and `first` holds a
/// digit or is the end of the bytes, the token that is looked for from `from`
/// begins at `first`.
pub proof fn lemma_token_starts_behind_delimiters(bytes: Seq<u8>, from: int, first: int)
    requires
        0 <= from <= first <= bytes.len(),
        no_digits(bytes.subrange(from, first)),
        first < bytes.len() ==> is_digit_byte(bytes[first]),
    ensures
        token_start(bytes, from) == first,
    decreases first - from,
{
    if from < first {
        assert(bytes.subrange(from, first)[0] == bytes[from]);
        assert forall|i: int| 0 <= i < first - (from + 1) implies !is_digit_byte(
            #[trigger] bytes.subrange(from + 1, first)[i],
        ) by {
            assert(bytes.subrange(from + 1, first)[i] == bytes.subrange(from, first)[i + 1]);
        }
        lemma_token_starts_behind_delimiters(bytes, from + 1, first);
    }
}

/// Where digits only lie between `from` and `end`, and `end` holds a delimiter
/// or is the end of the bytes, the token that holds `from` ends at `end`.
pub proof fn lemma_token_ends_behind_digits(bytes: Seq<u8>, from: int, end: int)
    requires
        0 <= from <= end <= bytes.len(),
        all_digits(bytes.subrange(from, end)),
        end < bytes.len() ==> !is_digit_byte(bytes[end]),
    ensures
        token_end(bytes, from) == end,
    decreases end - from,
{
    if from < end {
        assert(bytes.subrange(from, end)[0] == bytes[from]);
        assert forall|i: int| 0 <= i < end - (from + 1) implies is_digit_byte(
            #[trigger] bytes.subrange(from + 1, end)[i],
        ) by {
            assert(bytes.subrange(from + 1, end)[i] == bytes.subrange(from, end)[i + 1]);
        }
        lemma_token_ends_behind_digits(bytes, from + 1, end);
    }
}

/// The next sample is that of the first maximal run of digits that a delimiter
/// ends: where the bytes from `from` on are delimiters up to `first`, then
/// digits up to `end`, at least one, and then a delimiter, a reader at `from`
/// gets the sample of the digits and stands behind that delimiter afterwards.
pub proof fn lemma_next_sample_is_of_first_run(bytes: Seq<u8>, from: int, first: int, end: int)
    requires
        0 <= from <= first < end < bytes.len(),
        no_digits(bytes.subrange(from, first)),
        all_digits(bytes.subrange(first, end)),
        !is_digit_byte(bytes[end]),
    ensures
        next_sample(bytes, from) == Some((sample_of(bytes.subrange(first, end)), end + 1)),
{
    assert(bytes.subrange(first, end)[0] == bytes[first]);
    lemma_token_starts_behind_delimiters(bytes, from, first);
    lemma_token_ends_behind_digits(bytes, first, end);
}

/// There is no next sample where no run of digits is ended by a delimiter:
/// where the bytes from `from` on are delimiters up to `first` and digits from
/// there to the end.
pub proof fn lemma_no_next_sample_without_ended_run(bytes: Seq<u8>, from: int, first: int)
    requires
        0 <= from <= first <= bytes.len(),
        no_digits(bytes.subrange(from, first)),
        all_digits(bytes.subrange(first, bytes.len() as int)),
    ensures
        next_sample(bytes, from) is None,
{
    if first < bytes.len() {
        assert(bytes.subrange(first, bytes.len() as int)[0] == bytes[first]);
    }
    lemma_token_starts_behind_delimiters(bytes, from, first);
    lemma_token_ends_behind_digits(bytes, first, bytes.len() as int);
}

/// Reading one number is framing the bytes that the reader passes over: they
/// hold exactly the sample read and leave no token pending. Where there is
/// nothing to read, the remaining bytes hold no sample.
pub proof fn lemma_reading_is_framing(bytes: Seq<u8>, from: int)
    requires
        0 <= from <= bytes.len(),
    ensures
        match next_sample(bytes, from) {
            Some((sample, next)) => {
                &&& from < next <= bytes.len()
                &&& stream_samples(bytes.subrange(from, next)) == seq![sample]
                &&& framed_pending(Seq::empty(), bytes.subrange(from, next)) == Seq::<u8>::empty()
            },
            None => stream_samples(bytes.skip(from)) == Seq::<u16>::empty(),
        },
{
    let fresh = Seq::<u8>::empty();
    let first = token_start(bytes, from);
    lemma_token_start(bytes, from);
    let end = token_end(bytes, first);
    lemma_token_end(bytes, first);
    let noise = bytes.subrange(from, first);
    let digits = bytes.subrange(first, end);
    lemma_framing_delimiters(fresh, noise);
    lemma_framing_digits(fresh, digits);
    assert(fresh + digits =~= digits);
    lemma_framing_in_parts(fresh, noise, digits);
    assert(framed_pending(fresh, noise) == fresh);
    assert(framed_pending(fresh, noise + digits) == digits);
    assert(framed_samples(fresh, noise + digits) =~= Seq::<u16>::empty());
    if end < bytes.len() {
        let delim = bytes.subrange(end, end + 1);
        assert(first < bytes.len());
        assert(first < end) by {
            lemma_token_end(bytes, first + 1);
        }
        assert(!is_digit_byte(delim[0]));
        lemma_framing_delimiters(digits, delim);
        lemma_framing_in_parts(fresh, noise + digits, delim);
        assert(bytes.subrange(from, end + 1) =~= noise + digits + delim);
        assert(Seq::<u16>::empty() + seq![sample_of(digits)] =~= seq![sample_of(digits)]);
    } else {
        assert(bytes.skip(from) =~= noise + digits);
    }
}

/// Reading numbers one after another yields the samples that the incremental
/// framer emits on the same bytes.
pub proof fn lemma_reading_agrees_with_framing(bytes: Seq<u8>, from: int)
    requires
        0 <= from <= bytes.len(),
    ensures
        read_samples(bytes, from) == stream_samples(bytes.skip(from)),
    decreases bytes.len() - from,
{
    lemma_reading_is_framing(bytes, from);
    match next_sample(bytes, from) {
        Some((sample, next)) => {
            lemma_reading_agrees_with_framing(bytes, next);
            let passed = bytes.subrange(from, next);
            lemma_framing_in_parts(Seq::empty(), passed, bytes.skip(next));
            assert(bytes.skip(from) =~= passed + bytes.skip(next));
        },
        None => {},
    }
}

/// Reading a stream of delimited digit runs from its beginning yields the
/// samples of the runs, in order, whatever separates them.
pub proof fn lemma_reading_of_delimited_runs(
    lead: Seq<u8>,
    runs: Seq<Seq<u8>>,
    delims: Seq<Seq<u8>>,
    rest: Seq<u8>,
)
    requires
        no_digits(lead),
        runs.len() == delims.len(),
        forall|i: int| 0 <= i < runs.len() ==> (#[trigger] runs[i]).len() > 0 && all_digits(runs[i]),
        forall|i: int|
            0 <= i < delims.len() ==> (#[trigger] delims[i]).len() > 0 && no_digits(delims[i]),
        all_digits(rest),
    ensures
        read_samples(lead + delimited(runs, delims) + rest, 0) == samples_of_runs(runs),
{
    let bytes = lead + delimited(runs, delims) + rest;
    lemma_framing_of_delimited_runs(lead, runs, delims, rest);
    lemma_reading_agrees_with_framing(bytes, 0);
    assert(bytes.skip(0) =~= bytes);
}

} // verus!
