use frequencycounter::pipeline::Pipeline;
use frequencycounter::reporter::Reporter;

/// Feeds `bytes` to `pipeline` and collects the advances it publishes.
fn feed_all(pipeline: &mut Pipeline, bytes: &[u8]) -> Vec<u32> {
    let mut deltas = Vec::new();
    for &byte in bytes {
        if let Some(delta) = pipeline.feed(byte) {
            deltas.push(delta);
        }
    }
    deltas
}

#[test]
fn a_fresh_pipeline_has_counted_nothing() {
    let pipeline = Pipeline::new();
    assert!(!pipeline.is_synchronised());
    assert_eq!(pipeline.total(), 0);
}

#[test]
fn the_first_sample_is_discarded() {
    let mut pipeline = Pipeline::new();
    assert_eq!(feed_all(&mut pipeline, b"999"), Vec::<u32>::new());
    assert!(!pipeline.is_synchronised());
    assert_eq!(pipeline.feed(b'\n'), None);
    assert!(pipeline.is_synchronised());
    assert_eq!(pipeline.total(), 0);
}

#[test]
fn noise_does_not_synchronise() {
    let mut pipeline = Pipeline::new();
    assert_eq!(feed_all(&mut pipeline, b"\r\n\r\n  \r\n"), Vec::<u32>::new());
    assert!(!pipeline.is_synchronised());
}

#[test]
fn end_to_end() {
    let mut pipeline = Pipeline::new();
    let deltas = feed_all(&mut pipeline, b"999\n\n50\n\n60\n");
    assert_eq!(deltas, vec![50, 10]);
    assert_eq!(pipeline.total(), 60);
}

#[test]
fn end_to_end_byte_by_byte() {
    let mut pipeline = Pipeline::new();
    let published: Vec<Option<u32>> =
        b"999\n\n50\n\n60\n".iter().map(|&byte| pipeline.feed(byte)).collect();
    assert_eq!(
        published,
        vec![None, None, None, None, None, None, None, Some(50), None, None, None, Some(10)]
    );
}

#[test]
fn end_to_end_with_a_reporter() {
    let mut pipeline = Pipeline::new();
    let mut reporter = Reporter::new();
    feed_all(&mut pipeline, b"999\n\n50\n");
    assert!(reporter.capture_baseline(pipeline.total()));
    assert_eq!(feed_all(&mut pipeline, b"\n60\n"), vec![10]);
    let report = reporter.report(pipeline.total()).unwrap();
    assert_eq!(report.counts, 10);
    assert_eq!(report.counts_text, "10");
    // ten counts in one second
    let elapsed_seconds = 1.0f64;
    assert_eq!(report.counts as f64 / elapsed_seconds, 10.0);
}

#[test]
fn the_pipeline_unwraps_the_counter() {
    let mut pipeline = Pipeline::new();
    let deltas = feed_all(&mut pipeline, b"7\r\n65530\r\n5\r\n5\r\n105\r\n");
    assert_eq!(deltas, vec![65530, 11, 0, 100]);
    assert_eq!(pipeline.total(), 65641);
}

#[test]
fn a_malformed_sample_goes_through_the_pipeline_as_zero() {
    let mut pipeline = Pipeline::new();
    let deltas = feed_all(&mut pipeline, b"1\n100\n99999\n200\n");
    assert_eq!(deltas, vec![100, 65436, 200]);
    assert_eq!(pipeline.total(), 65736);
}

#[test]
fn the_total_of_the_pipeline_never_moves_backward() {
    let mut pipeline = Pipeline::new();
    let mut before = pipeline.total();
    for &byte in b"3\n10\n20\n5\n\n\n65535\n0\nxyz\n123456\n17\n17\n" {
        let delta = pipeline.feed(byte);
        assert!(pipeline.total() >= before);
        assert_eq!(pipeline.total(), before + delta.unwrap_or(0) as u64);
        before = pipeline.total();
    }
}
