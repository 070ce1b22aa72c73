use frequencycounter::reporter::{Reporter, REPORT_INTERVAL_MILLIS, SETTLE_MILLIS};

fn reporter_with_baseline(baseline: u64) -> Reporter {
    let mut reporter = Reporter::new();
    assert!(reporter.capture_baseline(baseline));
    reporter
}

fn counts_text(counts: u64) -> String {
    reporter_with_baseline(0).report(counts).unwrap().counts_text
}

#[test]
fn a_new_reporter_warms_up() {
    let reporter = Reporter::new();
    assert_eq!(reporter.baseline(), None);
    assert_eq!(reporter.delay_millis(), 2000);
    assert_eq!(SETTLE_MILLIS, 2000);
    assert!(reporter.report(0).is_none());
    assert!(reporter.report(12345).is_none());
}

#[test]
fn the_baseline_is_captured_once() {
    let mut reporter = Reporter::new();
    assert!(reporter.capture_baseline(100));
    assert_eq!(reporter.baseline(), Some(100));
    assert!(!reporter.capture_baseline(200));
    assert_eq!(reporter.baseline(), Some(100));
    assert!(!reporter.capture_baseline(0));
    assert_eq!(reporter.baseline(), Some(100));
}

#[test]
fn a_baselined_reporter_is_due_every_second() {
    let reporter = reporter_with_baseline(0);
    assert_eq!(reporter.delay_millis(), 1000);
    assert_eq!(REPORT_INTERVAL_MILLIS, 1000);
}

#[test]
fn counts_are_measured_from_the_baseline() {
    let reporter = reporter_with_baseline(100);
    assert_eq!(reporter.report(100).unwrap().counts, 0);
    assert_eq!(reporter.report(101).unwrap().counts, 1);
    assert_eq!(reporter.report(1334).unwrap().counts, 1234);
    assert_eq!(reporter.report(u64::MAX).unwrap().counts, u64::MAX - 100);
    assert_eq!(reporter.baseline(), Some(100));
}

#[test]
fn counts_follow_the_cell_round() {
    let reporter = reporter_with_baseline(u64::MAX);
    assert_eq!(reporter.report(4).unwrap().counts, 5);
    let reporter = reporter_with_baseline(10);
    assert_eq!(reporter.report(9).unwrap().counts, u64::MAX);
}

#[test]
fn the_text_of_the_counts_goes_with_the_counts() {
    let report = reporter_with_baseline(100).report(1334).unwrap();
    assert_eq!(report.counts, 1234);
    assert_eq!(report.counts_text, "1,234");
}

#[test]
fn counts_below_a_thousand_have_no_comma() {
    assert_eq!(counts_text(0), "0");
    assert_eq!(counts_text(9), "9");
    assert_eq!(counts_text(10), "10");
    assert_eq!(counts_text(99), "99");
    assert_eq!(counts_text(100), "100");
    assert_eq!(counts_text(999), "999");
}

#[test]
fn counts_are_grouped_in_threes() {
    assert_eq!(counts_text(1000), "1,000");
    assert_eq!(counts_text(9999), "9,999");
    assert_eq!(counts_text(10000), "10,000");
    assert_eq!(counts_text(100100), "100,100");
    assert_eq!(counts_text(999999), "999,999");
    assert_eq!(counts_text(1000000), "1,000,000");
    assert_eq!(counts_text(1234567), "1,234,567");
    assert_eq!(counts_text(1002003004), "1,002,003,004");
    assert_eq!(counts_text(u64::MAX), "18,446,744,073,709,551,615");
}
