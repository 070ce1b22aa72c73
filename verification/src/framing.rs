//! Number framing: extracting 16-bit samples from a noisy, line-delimited
//! stream of ASCII digits.
//!
//! A token is a maximal run of ASCII digits. Every other byte is a delimiter,
//! whatever it is and however many of them follow one another. A token that
//! does not fit sixteen bits decodes to the sample 0, as does anything else
//! that is not a number.

use vstd::prelude::*;

verus! {

/// The byte of the ASCII digit `0`.
pub const ASCII_ZERO: u8 = 0x30;

/// The byte of the ASCII digit `9`.
pub const ASCII_NINE: u8 = 0x39;

/// Whether `byte` is one of the ASCII digits `0` to `9`.
pub open spec fn is_digit_byte(byte: u8) -> bool {
    ASCII_ZERO <= byte <= ASCII_NINE
}

/// Whether every byte of `bytes` is an ASCII digit.
pub open spec fn all_digits(bytes: Seq<u8>) -> bool {
    forall|i: int| 0 <= i < bytes.len() ==> is_digit_byte(#[trigger] bytes[i])
}

/// Whether no byte of `bytes` is an ASCII digit.
pub open spec fn no_digits(bytes: Seq<u8>) -> bool {
    forall|i: int| 0 <= i < bytes.len() ==> !is_digit_byte(#[trigger] bytes[i])
}

/// The number that a run of ASCII digits denotes in base ten, most significant
/// digit first. Leading zeros do not change it, and the empty run denotes 0.
pub open spec fn decimal_value(digits: Seq<u8>) -> nat
    decreases digits.len(),
{
    if digits.len() == 0 {
        0
    } else {
        10 * decimal_value(digits.drop_last()) + (digits.last() - ASCII_ZERO) as nat
    }
}

/// Whether `token` is a number that a sample can hold: at least one byte,
/// digits only, and a value of at most 65535.
pub open spec fn is_well_formed(token: Seq<u8>) -> bool {
    &&& token.len() > 0
    &&& all_digits(token)
    &&& decimal_value(token) <= u16::MAX
}

/// The sample that `token` decodes to: its decimal value where it is well
/// formed, and 0 for every malformed token.
pub open spec fn sample_of(token: Seq<u8>) -> u16 {
    if is_well_formed(token) {
        decimal_value(token) as u16
    } else {
        0
    }
}

/// Tells whether `byte` is an ASCII digit. Every other byte is a delimiter.
pub fn is_digit(byte: u8) -> (digit: bool)
    ensures
        digit == is_digit_byte(byte),
{
    byte >= ASCII_ZERO && byte <= ASCII_NINE
}

/// A prefix of a run never denotes more than the whole run.
pub proof fn lemma_decimal_value_of_prefix(digits: Seq<u8>, n: int)
    requires
        0 <= n <= digits.len(),
    ensures
        decimal_value(digits.take(n)) <= decimal_value(digits),
    decreases digits.len(),
{
    if n == digits.len() {
        assert(digits.take(n) =~= digits);
    } else {
        lemma_decimal_value_of_prefix(digits.drop_last(), n);
        assert(digits.drop_last().take(n) =~= digits.take(n));
    }
}

/// Decodes a token into a sample. A malformed token (empty, holding a byte
/// that is no digit, or denoting more than 65535) gives 0.
pub fn decode_token(token: &[u8]) -> (sample: u16)
    ensures
        sample == sample_of(token@),
{
    let mut value: u32 = 0;
    let mut i: usize = 0;
    while i < token.len()
        invariant
            i <= token.len(),
            all_digits(token@.take(i as int)),
            value == decimal_value(token@.take(i as int)),
            value <= u16::MAX,
        decreases token.len() - i,
    {
        let byte = token[i];
        if !is_digit(byte) {
            return 0;
        }
        let ghost seen = token@.take(i as int);
        let ghost grown = token@.take(i + 1);
        assert(grown.drop_last() =~= seen);
        assert(grown.last() == byte);
        value = value * 10 + (byte - ASCII_ZERO) as u32;
        if value > 0xFFFF {
            proof {
                lemma_decimal_value_of_prefix(token@, i + 1);
            }
            return 0;
        }
        i += 1;
    }
    assert(token@.take(i as int) =~= token@);
    value as u16
}

/// The index of the first digit of `bytes` at or after `from`, or the length
/// of `bytes` where only delimiters are left.
pub open spec fn token_start(bytes: Seq<u8>, from: int) -> int
    decreases bytes.len() - from,
{
    if from >= bytes.len() {
        bytes.len() as int
    } else if is_digit_byte(bytes[from]) {
        from
    } else {
        token_start(bytes, from + 1)
    }
}

/// The index of the first delimiter of `bytes` at or after `from`, or the
/// length of `bytes` where only digits are left.
pub open spec fn token_end(bytes: Seq<u8>, from: int) -> int
    decreases bytes.len() - from,
{
    if from >= bytes.len() {
        bytes.len() as int
    } else if !is_digit_byte(bytes[from]) {
        from
    } else {
        token_end(bytes, from + 1)
    }
}

/// The next sample of `bytes` for a reader that stands at `from`, with the
/// index at which the reader stands afterwards.
///
/// The reader skips delimiters, takes the digits that follow as the token, and
/// consumes the one delimiter that ends it. There is no sample while the token
/// has not begun or has not been ended by a delimiter.
pub open spec fn next_sample(bytes: Seq<u8>, from: int) -> Option<(u16, int)> {
    let first = token_start(bytes, from);
    let end = token_end(bytes, first);
    if end < bytes.len() {
        Some((sample_of(bytes.subrange(first, end)), end + 1))
    } else {
        None
    }
}

/// `token_start` is the least index at or after `from` that holds a digit.
pub proof fn lemma_token_start(bytes: Seq<u8>, from: int)
    requires
        0 <= from <= bytes.len(),
    ensures
        from <= token_start(bytes, from) <= bytes.len(),
        no_digits(bytes.subrange(from, token_start(bytes, from))),
        token_start(bytes, from) < bytes.len() ==> is_digit_byte(
            bytes[token_start(bytes, from)],
        ),
    decreases bytes.len() - from,
{
    if from < bytes.len() && !is_digit_byte(bytes[from]) {
        lemma_token_start(bytes, from + 1);
        let first = token_start(bytes, from);
        assert forall|i: int| 0 <= i < first - from implies !is_digit_byte(
            #[trigger] bytes.subrange(from, first)[i],
        ) by {
            if i > 0 {
                assert(bytes.subrange(from, first)[i] == bytes.subrange(from + 1, first)[i - 1]);
            }
        }
    }
}

/// `token_end` is the least index at or after `from` that holds a delimiter.
pub proof fn lemma_token_end(bytes: Seq<u8>, from: int)
    requires
        0 <= from <= bytes.len(),
    ensures
        from <= token_end(bytes, from) <= bytes.len(),
        all_digits(bytes.subrange(from, token_end(bytes, from))),
        token_end(bytes, from) < bytes.len() ==> !is_digit_byte(bytes[token_end(bytes, from)]),
    decreases bytes.len() - from,
{
    if from < bytes.len() && is_digit_byte(bytes[from]) {
        lemma_token_end(bytes, from + 1);
        let end = token_end(bytes, from);
        assert forall|i: int| 0 <= i < end - from implies is_digit_byte(
            #[trigger] bytes.subrange(from, end)[i],
        ) by {
            if i > 0 {
                assert(bytes.subrange(from, end)[i] == bytes.subrange(from + 1, end)[i - 1]);
            }
        }
    }
}

/// The samples that a reader takes from `bytes` by reading one number after
/// another, beginning at `from`, until no complete number is left.
pub open spec fn read_samples(bytes: Seq<u8>, from: int) -> Seq<u16>
    decreases bytes.len() - from,
    when 0 <= from <= bytes.len()
    via read_samples_terminates
{
    match next_sample(bytes, from) {
        Some((sample, next)) => seq![sample] + read_samples(bytes, next),
        None => Seq::empty(),
    }
}

#[via_fn]
proof fn read_samples_terminates(bytes: Seq<u8>, from: int) {
    lemma_token_start(bytes, from);
    lemma_token_end(bytes, token_start(bytes, from));
}

/// Reads the next number from `bytes`, beginning at index `start`.
///
/// Returns the sample together with the index just behind the delimiter that
/// ended its token, from which the next call goes on. Returns `None` where
/// `bytes` ends before a token has begun and been ended by a delimiter.
pub fn read_number(bytes: &[u8], start: usize) -> (found: Option<(u16, usize)>)
    ensures
        match found {
            Some((sample, next)) => {
                &&& next_sample(bytes@, start as int) == Some((sample, next as int))
                &&& start < next <= bytes.len()
            },
            None => next_sample(bytes@, start as int) is None,
        },
{
    let mut token: Vec<u8> = Vec::new();
    let mut pos: usize = start;

    // skip the delimiters before the token
    loop
        invariant_except_break
            start <= pos,
            token@.len() == 0,
            token_start(bytes@, start as int) == token_start(bytes@, pos as int),
        ensures
            start < pos <= bytes.len(),
            is_digit_byte(bytes@[pos - 1]),
            token_start(bytes@, start as int) == pos - 1,
            token@ =~= bytes@.subrange(pos - 1, pos as int),
        decreases bytes.len() - pos,
    {
        if pos >= bytes.len() {
            assert(token_end(bytes@, bytes@.len() as int) == bytes@.len());
            return None;
        }
        let byte = bytes[pos];
        pos += 1;
        if is_digit(byte) {
            token.push(byte);
            break ;
        }
    }

    let ghost first: int = pos - 1;
    assert(token_end(bytes@, first) == token_end(bytes@, pos as int));

    // collect the digits up to the delimiter that ends the token
    loop
        invariant_except_break
            0 <= first < pos <= bytes.len(),
            token_start(bytes@, start as int) == first,
            token_end(bytes@, first) == token_end(bytes@, pos as int),
            token@ =~= bytes@.subrange(first, pos as int),
        ensures
            0 <= first < pos <= bytes.len(),
            token_start(bytes@, start as int) == first,
            token_end(bytes@, first) == pos - 1,
            token@ =~= bytes@.subrange(first, pos - 1),
        decreases bytes.len() - pos,
    {
        if pos >= bytes.len() {
            return None;
        }
        let byte = bytes[pos];
        pos += 1;
        if is_digit(byte) {
            token.push(byte);
        } else {
            break ;
        }
    }

    Some((decode_token(token.as_slice()), pos))
}

/// The token that a framer holds after `byte`, where it held `token` before:
/// a digit extends the token, a delimiter leaves none.
pub open spec fn framer_next(token: Seq<u8>, byte: u8) -> Seq<u8> {
    if is_digit_byte(byte) {
        token.push(byte)
    } else {
        Seq::empty()
    }
}

/// The sample that a framer holding `token` emits on `byte`: the decoded token
/// where `byte` is the delimiter that ends it, and none on a digit or while no
/// token has begun.
pub open spec fn framer_emits(token: Seq<u8>, byte: u8) -> Option<u16> {
    if !is_digit_byte(byte) && token.len() > 0 {
        Some(sample_of(token))
    } else {
        None
    }
}

/// The token that a framer holds once it has consumed `bytes`, where it held
/// `token` before.
pub open spec fn framed_pending(token: Seq<u8>, bytes: Seq<u8>) -> Seq<u8>
    decreases bytes.len(),
{
    if bytes.len() == 0 {
        token
    } else {
        framer_next(framed_pending(token, bytes.drop_last()), bytes.last())
    }
}

/// The samples that a framer emits while it consumes `bytes`, in order, where
/// it held `token` before.
pub open spec fn framed_samples(token: Seq<u8>, bytes: Seq<u8>) -> Seq<u16>
    decreases bytes.len(),
{
    if bytes.len() == 0 {
        Seq::empty()
    } else {
        let earlier = framed_samples(token, bytes.drop_last());
        match framer_emits(framed_pending(token, bytes.drop_last()), bytes.last()) {
            Some(sample) => earlier.push(sample),
            None => earlier,
        }
    }
}

/// The samples of a whole stream: what a fresh framer emits on `bytes`.
pub open spec fn stream_samples(bytes: Seq<u8>) -> Seq<u16> {
    framed_samples(Seq::empty(), bytes)
}

/// An incremental number framer: it is handed the bytes of the stream one at
/// a time and emits a sample whenever a delimiter ends a token.
///
/// Its view is the token collected so far, which is empty between tokens.
#[derive(Debug)]
pub struct Framer {
    token: Vec<u8>,
}

impl View for Framer {
    type V = Seq<u8>;

    closed spec fn view(&self) -> Seq<u8> {
        self.token@
    }
}

impl Framer {
    /// A framer at the start of a stream, with no token begun.
    pub fn new() -> (framer: Framer)
        ensures
            framer@ == Seq::<u8>::empty(),
    {
        Framer { token: Vec::new() }
    }

    /// Consumes one byte of the stream.
    ///
    /// A digit extends the current token and emits nothing. A delimiter ends
    /// the current token and emits its sample; between tokens it is skipped.
    /// No sample is ever emitted for an empty token.
    pub fn push(&mut self, byte: u8) -> (sample: Option<u16>)
        ensures
            final(self)@ == framer_next(old(self)@, byte),
            sample == framer_emits(old(self)@, byte),
            sample is Some <==> !is_digit_byte(byte) && old(self)@.len() > 0,
    {
        if is_digit(byte) {
            self.token.push(byte);
            None
        } else if self.token.len() == 0 {
            assert(self.token@ =~= Seq::<u8>::empty());
            None
        } else {
            let sample = decode_token(self.token.as_slice());
            self.token.clear();
            Some(sample)
        }
    }

    /// The token collected so far: the digits seen since the last delimiter.
    pub fn pending(&self) -> (token: &[u8])
        ensures
            token@ == self@,
    {
        self.token.as_slice()
    }
}

} // verus!
