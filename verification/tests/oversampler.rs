use melter::delay::DelayLine;
use melter::oversampler::Oversampler;
use melter::oversampling::latency;

fn centre(line: &DelayLine<i64>) -> i64 {
    line.tap(5).unwrap_or(0)
}

fn sinc(x: f64) -> f64 {
    if x == 0.0 {
        1.0
    } else {
        (std::f64::consts::PI * x).sin() / (std::f64::consts::PI * x)
    }
}

/// The Lanczos kernel with three lobes a side, sampled every half sample.
fn lanczos3() -> [f64; 11] {
    let mut taps = [0.0; 11];
    for (k, tap) in taps.iter_mut().enumerate() {
        let x = (k as f64 - 5.0) / 2.0;
        *tap = sinc(x) * sinc(x / 3.0);
    }
    taps
}

fn convolve(line: &DelayLine<f64>, taps: &[f64; 11], scale: f64) -> f64 {
    let mut sum = 0.0;
    for (age, tap) in taps.iter().enumerate() {
        sum += tap * line.tap(age).unwrap_or(0.0);
    }
    sum * scale
}

#[test]
fn new_oversampler_reports_what_it_was_made_for() {
    let oversampler: Oversampler<i64> = Oversampler::new(32, 4, 0).expect("a small oversampler");
    assert_eq!(oversampler.max_block_size(), 32);
    assert_eq!(oversampler.max_factor(), 4);
    let flat: Oversampler<i64> = Oversampler::new(8, 0, 0).expect("an oversampler without stages");
    assert_eq!(flat.max_factor(), 0);
}

#[test]
fn new_oversampler_is_refused_where_a_length_would_not_fit() {
    assert!(Oversampler::<i64>::new(usize::MAX, 1, 0).is_none());
    assert!(Oversampler::<i64>::new(1, usize::BITS as usize, 0).is_none());
}

#[test]
fn oversampler_latency_is_that_of_its_factor() {
    let oversampler: Oversampler<i64> = Oversampler::new(32, 4, 0).expect("a small oversampler");
    assert_eq!(oversampler.latency(0), Some(0));
    assert_eq!(oversampler.latency(1), Some(5));
    assert_eq!(oversampler.latency(2), Some(8));
    assert_eq!(oversampler.latency(3), Some(10));
    assert_eq!(oversampler.latency(4), Some(11));
    assert_eq!(oversampler.latency(5), None);
    assert_eq!(oversampler.latency(usize::MAX), None);
}

#[test]
fn process_at_factor_zero_hands_the_block_to_the_transform() {
    let mut oversampler: Oversampler<i64> = Oversampler::new(8, 2, 0).expect("a small oversampler");
    let mut block = [1, 2, 3];
    let done = oversampler.process(&mut block, 0, 0, centre, centre, |region: &mut [i64]| {
        assert_eq!(region, [1, 2, 3]);
        for sample in region.iter_mut() {
            *sample *= 10;
        }
    });
    assert!(done);
    assert_eq!(block, [10, 20, 30]);
}

#[test]
fn process_calls_the_transform_once_on_the_whole_raised_block() {
    for factor in 0..=4usize {
        for len in [0usize, 1, 5, 32] {
            let mut oversampler: Oversampler<i64> =
                Oversampler::new(32, 4, 0).expect("a small oversampler");
            let mut block = vec![1i64; len];
            let mut calls = 0;
            let mut seen = usize::MAX;
            let done = oversampler.process(&mut block, factor, 0, centre, centre, |region: &mut [i64]| {
                calls += 1;
                seen = region.len();
            });
            assert!(done);
            assert_eq!(calls, 1);
            assert_eq!(seen, len << factor);
            assert_eq!(block.len(), len);
        }
    }
}

#[test]
fn process_refuses_a_block_that_is_too_long() {
    let mut oversampler: Oversampler<i64> = Oversampler::new(4, 2, 0).expect("a small oversampler");
    let mut block = [1, 2, 3, 4, 5];
    let done = oversampler.process(&mut block, 1, 0, centre, centre, |_: &mut [i64]| {
        panic!("the transform must not run");
    });
    assert!(!done);
    assert_eq!(block, [1, 2, 3, 4, 5]);
}

#[test]
fn process_refuses_a_factor_that_is_too_high() {
    let mut oversampler: Oversampler<i64> = Oversampler::new(4, 2, 0).expect("a small oversampler");
    let mut block = [1, 2, 3];
    let done = oversampler.process(&mut block, 3, 0, centre, centre, |_: &mut [i64]| {
        panic!("the transform must not run");
    });
    assert!(!done);
    assert_eq!(block, [1, 2, 3]);
    // Nothing was remembered of the refused block.
    let mut next = [0i64; 4];
    assert!(oversampler.process(&mut next, 2, 0, centre, centre, |_: &mut [i64]| {}));
    assert_eq!(next, [0, 0, 0, 0]);
}

#[test]
fn a_round_trip_with_pure_delays_is_a_delay_by_the_latency() {
    for factor in 0..=4usize {
        let mut oversampler: Oversampler<i64> = Oversampler::new(32, 4, 0).expect("a small oversampler");
        let delay = latency(factor) as usize;
        let mut sent: Vec<i64> = Vec::new();
        let mut received: Vec<i64> = Vec::new();
        let mut next = 1i64;
        for len in [32usize, 1, 7, 0, 32, 19] {
            let mut block: Vec<i64> = (0..len).map(|i| next + i as i64).collect();
            next += len as i64;
            sent.extend_from_slice(&block);
            assert!(oversampler.process(&mut block, factor, 0, centre, centre, |_: &mut [i64]| {}));
            received.extend_from_slice(&block);
        }
        assert_eq!(sent.len(), received.len());
        for i in 0..sent.len() {
            let expected = if i >= delay { sent[i - delay] } else { 0 };
            assert_eq!(received[i], expected, "factor {} sample {}", factor, i);
        }
    }
}

#[test]
fn the_transform_works_at_the_raised_rate() {
    // With pure delays for kernels every sample of the block stands at a multiple of the
    // multiplier in the raised block, with zeros between.
    let mut oversampler: Oversampler<i64> = Oversampler::new(8, 3, 0).expect("a small oversampler");
    let mut block = [1, 2, 3, 4, 5, 6, 7, 8];
    let mut raised: Vec<i64> = Vec::new();
    assert!(oversampler.process(&mut block, 1, 0, centre, centre, |region: &mut [i64]| {
        raised.extend_from_slice(region);
    }));
    assert_eq!(raised, [0, 0, 0, 0, 0, 1, 0, 2, 0, 3, 0, 4, 0, 5, 0, 6]);
}

#[test]
fn what_the_transform_writes_comes_back_down() {
    let mut oversampler: Oversampler<i64> = Oversampler::new(8, 1, 0).expect("a small oversampler");
    let mut block = [0i64; 8];
    assert!(oversampler.process(&mut block, 1, 0, centre, centre, |region: &mut [i64]| {
        for (i, sample) in region.iter_mut().enumerate() {
            *sample = 100 + i as i64;
        }
    }));
    // Sample i of the block is what stood five places before place 2 i of the raised block.
    assert_eq!(block, [0, 0, 0, 101, 103, 105, 107, 109]);
}

#[test]
fn reset_brings_the_silence_back() {
    let mut oversampler: Oversampler<i64> = Oversampler::new(16, 2, 0).expect("a small oversampler");
    let mut block = [9i64; 16];
    assert!(oversampler.process(&mut block, 2, 0, centre, centre, |_: &mut [i64]| {}));
    let mut unreset = [0i64; 16];
    assert!(oversampler.process(&mut unreset, 2, 0, centre, centre, |_: &mut [i64]| {}));
    assert_eq!(&unreset[..8], &[9i64; 8]);
    oversampler.reset(0);
    assert_eq!(oversampler.max_block_size(), 16);
    assert_eq!(oversampler.max_factor(), 2);
    let mut fresh = [5i64; 16];
    assert!(oversampler.process(&mut fresh, 2, 0, centre, centre, |_: &mut [i64]| {}));
    assert_eq!(&fresh[..8], &[0i64; 8]);
    assert_eq!(&fresh[8..], &[5i64; 8]);
}

#[test]
fn a_slow_sinusoid_comes_back_after_the_latency() {
    let taps = lanczos3();
    for factor in 0..=4usize {
        let mut oversampler: Oversampler<f64> =
            Oversampler::new(32, 4, 0.0).expect("a small oversampler");
        let delay = oversampler.latency(factor).expect("a factor in range") as usize;
        let signal: Vec<f64> =
            (0..256).map(|n| (2.0 * std::f64::consts::PI * 0.01 * n as f64).sin()).collect();
        let mut received: Vec<f64> = Vec::new();
        for chunk in signal.chunks(32) {
            let mut block = chunk.to_vec();
            let done = oversampler.process(
                &mut block,
                factor,
                0.0,
                |line: &DelayLine<f64>| convolve(line, &taps, 1.0),
                |line: &DelayLine<f64>| convolve(line, &taps, 0.5),
                |_: &mut [f64]| {},
            );
            assert!(done);
            received.extend_from_slice(&block);
        }
        let tolerance = 0.006 * factor as f64 + 1e-12;
        for n in (delay + 20)..signal.len() {
            let error = (received[n] - signal[n - delay]).abs();
            assert!(error <= tolerance, "factor {} sample {}: off by {}", factor, n, error);
        }
    }
}
