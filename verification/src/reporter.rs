//! The reporter's bookkeeping: the baseline that counts are measured from, and
//! the integer figures of each report.
//!
//! The reporter warms up for a settle delay, captures the running total once
//! as its baseline, and from then on reports at a fixed rate how far the total
//! has come since. Time itself, and the frequency derived from it, are the
//! caller's.

use vstd::prelude::*;

verus! {

/// How long the reporter lets the worker settle before it captures the
/// baseline, in milliseconds.
pub const SETTLE_MILLIS: u64 = 2000;

/// The time between two reports, in milliseconds.
pub const REPORT_INTERVAL_MILLIS: u64 = 1000;

/// The counts between the running totals `baseline` and `total`, read from a
/// 64-bit cell that is added to modulo 2^64.
pub open spec fn counts_between(baseline: u64, total: u64) -> u64 {
    ((total - baseline) % 0x1_0000_0000_0000_0000) as u64
}

/// The character of the decimal digit `digit`.
pub open spec fn digit_char(digit: int) -> char {
    (0x30 + digit) as char
}

/// The decimal digits of `number`, most significant first, without leading
/// zeros.
pub open spec fn decimal_text(number: nat) -> Seq<char>
    decreases number,
{
    if number < 10 {
        seq![digit_char(number as int)]
    } else {
        decimal_text(number / 10).push(digit_char(number as int % 10))
    }
}

/// The decimal digits of `number` in groups of three from the right, with a
/// comma between the groups.
pub open spec fn grouped_text(number: nat) -> Seq<char>
    decreases number,
{
    if number < 1000 {
        decimal_text(number)
    } else {
        grouped_text(number / 1000) + seq![
            ',',
            digit_char(number as int / 100 % 10),
            digit_char(number as int / 10 % 10),
            digit_char(number as int % 10),
        ]
    }
}

/// The integer figures of one report.
#[derive(Debug)]
pub struct Report {
    /// The counts since the baseline.
    pub counts: u64,
    /// The counts as they are printed, thousands-grouped.
    pub counts_text: String,
}

/// The reporter's state: warming up, or reporting against a baseline.
///
/// Its view is the baseline, `None` while the reporter warms up.
#[derive(Debug)]
pub struct Reporter {
    baseline: Option<u64>,
}

impl View for Reporter {
    type V = Option<u64>;

    closed spec fn view(&self) -> Option<u64> {
        self.baseline
    }
}

/// Calls `separated_string` of `separator::Separatable` on a `u64`.
///
/// Trusted, not proved: the text is `grouped_text` of the number. The crate
/// prints the number in decimal and puts a comma before every digit that has a
/// multiple of three digits from itself to the end, the first digit excepted.
#[verifier::external_body]
fn separated_string(number: u64) -> (text: String)
    ensures
        text@ == grouped_text(number as nat),
{
    separator::Separatable::separated_string(&number)
}

impl Reporter {
    /// A reporter that warms up: no baseline yet.
    pub fn new() -> (reporter: Reporter)
        ensures
            reporter@ is None,
    {
        Reporter { baseline: None }
    }

    /// The baseline, once it has been captured.
    pub fn baseline(&self) -> (baseline: Option<u64>)
        ensures
            baseline == self@,
    {
        self.baseline
    }

    /// How long to sleep before the reporter is next due: the settle delay
    /// while it warms up, the report interval afterwards.
    pub fn delay_millis(&self) -> (millis: u64)
        ensures
            millis == if self@ is None {
                SETTLE_MILLIS
            } else {
                REPORT_INTERVAL_MILLIS
            },
    {
        match self.baseline {
            None => SETTLE_MILLIS,
            Some(_) => REPORT_INTERVAL_MILLIS,
        }
    }

    /// Captures `total` as the baseline and ends the warm-up. The baseline is
    /// captured once: a reporter that has one keeps it, and says so by
    /// returning `false`.
    pub fn capture_baseline(&mut self, total: u64) -> (captured: bool)
        ensures
            captured == (old(self)@ is None),
            final(self)@ == if old(self)@ is None {
                Some(total)
            } else {
                old(self)@
            },
    {
        match self.baseline {
            None => {
                self.baseline = Some(total);
                true
            },
            Some(_) => false,
        }
    }

    /// The figures of the report for the running total `total`: the counts
    /// since the baseline, and their text. There is no report while the
    /// reporter warms up.
    pub fn report(&self, total: u64) -> (report: Option<Report>)
        ensures
            match self@ {
                None => report is None,
                Some(baseline) => {
                    &&& report matches Some(figures)
                    &&& figures.counts == counts_between(baseline, total)
                    &&& total >= baseline ==> figures.counts == total - baseline
                    &&& figures.counts_text@ == grouped_text(figures.counts as nat)
                },
            },
    {
        match self.baseline {
            None => None,
            Some(baseline) => {
                let counts = total.wrapping_sub(baseline);
                Some(Report { counts, counts_text: separated_string(counts) })
            },
        }
    }
}

} // verus!
