use frequencycounter::accumulator::{wraparound_delta, Accumulator, COUNTER_SPAN};

#[test]
fn delta_without_wraparound_is_the_difference() {
    assert_eq!(wraparound_delta(100, 200), 100);
    assert_eq!(wraparound_delta(0, 65535), 65535);
    assert_eq!(wraparound_delta(0, 1), 1);
}

#[test]
fn delta_of_equal_readings_is_zero() {
    assert_eq!(wraparound_delta(0, 0), 0);
    assert_eq!(wraparound_delta(65535, 65535), 0);
    assert_eq!(wraparound_delta(1234, 1234), 0);
}

#[test]
fn delta_across_the_wraparound() {
    assert_eq!(wraparound_delta(65530, 5), 11);
    assert_eq!(wraparound_delta(65535, 0), 1);
    assert_eq!(wraparound_delta(1, 0), 65535);
    assert_eq!(wraparound_delta(200, 100), 65436);
}

#[test]
fn delta_is_the_difference_modulo_the_counter_span() {
    assert_eq!(COUNTER_SPAN, 65536);
    let readings = [0u16, 1, 2, 5, 99, 100, 200, 255, 256, 32767, 32768, 65000, 65530, 65534, 65535];
    for &last in &readings {
        for &current in &readings {
            let expected = (current as i64 - last as i64).rem_euclid(65536) as u32;
            assert_eq!(wraparound_delta(last, current), expected, "{} -> {}", last, current);
        }
    }
    for last in (0..=65535u32).step_by(257) {
        for current in (0..=65535u32).step_by(251) {
            let expected = (current as i64 - last as i64).rem_euclid(65536) as u32;
            assert_eq!(wraparound_delta(last as u16, current as u16), expected);
        }
    }
}

#[test]
fn a_new_accumulator_has_seen_nothing() {
    let accumulator = Accumulator::new();
    assert_eq!(accumulator, Accumulator { last_sample: 0, total: 0 });
}

#[test]
fn observe_adds_the_delta_and_keeps_the_sample() {
    let mut accumulator = Accumulator::new();
    assert_eq!(accumulator.observe(50), 50);
    assert_eq!(accumulator, Accumulator { last_sample: 50, total: 50 });
    assert_eq!(accumulator.observe(60), 10);
    assert_eq!(accumulator, Accumulator { last_sample: 60, total: 60 });
    assert_eq!(accumulator.observe(60), 0);
    assert_eq!(accumulator, Accumulator { last_sample: 60, total: 60 });
}

#[test]
fn observe_unwraps_the_counter() {
    let mut accumulator = Accumulator { last_sample: 65530, total: 65530 };
    assert_eq!(accumulator.observe(5), 11);
    assert_eq!(accumulator, Accumulator { last_sample: 5, total: 65541 });
}

#[test]
fn a_malformed_sample_counts_as_a_reading_of_zero() {
    let mut accumulator = Accumulator::new();
    accumulator.observe(1000);
    assert_eq!(accumulator.observe(0), 64536);
    assert_eq!(accumulator.total, 65536);
    assert_eq!(accumulator.observe(1010), 1010);
    assert_eq!(accumulator.total, 66546);
}

#[test]
fn the_total_never_moves_backward() {
    let samples = [
        10u16, 20, 20, 65535, 0, 1, 40000, 39999, 0, 0, 65535, 65535, 1, 2, 3, 50000, 100, 99, 98,
    ];
    let mut accumulator = Accumulator::new();
    let mut sum: u64 = 0;
    for &sample in &samples {
        let before = accumulator.total;
        let delta = accumulator.observe(sample);
        sum += delta as u64;
        assert!(accumulator.total >= before);
        assert_eq!(accumulator.total, before + delta as u64);
        assert_eq!(accumulator.total, sum);
        assert_eq!(accumulator.last_sample, sample);
    }
}

#[test]
fn the_total_is_added_to_as_a_64_bit_cell() {
    let mut accumulator = Accumulator { last_sample: 0, total: u64::MAX };
    assert_eq!(accumulator.observe(1), 1);
    assert_eq!(accumulator, Accumulator { last_sample: 1, total: 0 });

    let mut accumulator = Accumulator { last_sample: 0, total: u64::MAX - 10 };
    assert_eq!(accumulator.observe(10), 10);
    assert_eq!(accumulator.total, u64::MAX);
    assert_eq!(accumulator.observe(12), 2);
    assert_eq!(accumulator.total, 1);
}
