use melter::delay::DelayLine;
use melter::stage::OversamplingStage;

fn newest(line: &DelayLine<i64>) -> i64 {
    line.tap(0).unwrap_or(0)
}

fn centre(line: &DelayLine<i64>) -> i64 {
    line.tap(5).unwrap_or(0)
}

/// The sum of what the line holds, each sample weighted by its age plus one.
fn weighted(line: &DelayLine<i64>) -> i64 {
    let mut sum = 0;
    for age in 0..line.len() {
        sum += (age as i64 + 1) * line.tap(age).unwrap_or(0);
    }
    sum
}

#[test]
fn raise_puts_a_zero_behind_each_sample() {
    let mut stage: OversamplingStage<i64> = OversamplingStage::new(0, 0);
    let input = [7, 9, -4];
    let mut output = [1i64; 6];
    assert!(stage.raise(&input, 3, &mut output, 0, &newest));
    assert_eq!(output, [7, 0, 9, 0, -4, 0]);
}

#[test]
fn raise_touches_only_the_samples_it_was_asked_for() {
    let mut stage: OversamplingStage<i64> = OversamplingStage::new(0, 0);
    let input = [7, 9, -4, 100];
    let mut output = [1i64; 9];
    assert!(stage.raise(&input, 2, &mut output, 0, &newest));
    assert_eq!(output, [7, 0, 9, 0, 1, 1, 1, 1, 1]);
    assert!(stage.raise(&input, 0, &mut output, 0, &newest));
    assert_eq!(output, [7, 0, 9, 0, 1, 1, 1, 1, 1]);
}

#[test]
fn raise_holds_its_results_back_by_the_padding() {
    // Stage 1 has two samples of padding.
    let mut stage: OversamplingStage<i64> = OversamplingStage::new(1, 0);
    let input = [7, 9, -4];
    let mut output = [1i64; 6];
    assert!(stage.raise(&input, 3, &mut output, 0, &newest));
    assert_eq!(output, [0, 0, 7, 0, 9, 0]);
    let mut more = [1i64; 2];
    assert!(stage.raise(&[5], 1, &mut more, 0, &newest));
    assert_eq!(more, [-4, 0]);
}

#[test]
fn raise_shows_the_kernel_the_last_eleven_samples() {
    let mut stage: OversamplingStage<i64> = OversamplingStage::new(0, 0);
    let input = [1, 1];
    let mut output = [0i64; 4];
    assert!(stage.raise(&input, 2, &mut output, 0, &weighted));
    // After 1: 1*1. After the zero: 2*1. After the next 1: 1*1 + 3*1. After its zero: 2*1 + 4*1.
    assert_eq!(output, [1, 2, 4, 6]);
}

#[test]
fn lower_lets_the_kernel_see_the_first_of_each_pair() {
    let mut stage: OversamplingStage<i64> = OversamplingStage::new(0, 0);
    let input = [1, 2, 3, 4, 5, 6];
    let mut output = [0i64; 3];
    assert!(stage.lower(&input, 3, &mut output, &newest));
    assert_eq!(output, [1, 3, 5]);
}

#[test]
fn lower_keeps_the_second_of_each_pair_in_its_history() {
    let mut stage: OversamplingStage<i64> = OversamplingStage::new(0, 0);
    let second_newest = |line: &DelayLine<i64>| line.tap(1).unwrap_or(0);
    let input = [1, 2, 3, 4, 5, 6];
    let mut output = [9i64; 4];
    assert!(stage.lower(&input, 3, &mut output, &second_newest));
    assert_eq!(output, [0, 2, 4, 9]);
    let mut more = [9i64; 1];
    assert!(stage.lower(&[7, 8], 1, &mut more, &second_newest));
    assert_eq!(more, [6]);
}

#[test]
fn a_stage_with_a_pure_delay_for_a_kernel_delays_by_its_latency() {
    // Stage 0: five samples at the rate of its input. Stage 1: 12 / 2 = 6. Stage 2: 16 / 2 = 8.
    for (index, delay) in [(0usize, 5usize), (1, 6), (2, 8), (3, 8), (4, 16)] {
        let mut stage: OversamplingStage<i64> = OversamplingStage::new(index, 0);
        let input: Vec<i64> = (1..=40).collect();
        let mut raised = vec![0i64; 80];
        assert!(stage.raise(&input, 40, &mut raised, 0, &centre));
        let mut lowered = vec![0i64; 40];
        assert!(stage.lower(&raised, 40, &mut lowered, &centre));
        for i in 0..40 {
            let expected = if i >= delay { input[i - delay] } else { 0 };
            assert_eq!(lowered[i], expected, "stage {} sample {}", index, i);
        }
    }
}

#[test]
fn reset_silences_all_three_histories() {
    let mut stage: OversamplingStage<i64> = OversamplingStage::new(1, 0);
    let input = [3, 3, 3, 3, 3, 3, 3, 3];
    let mut raised = [0i64; 16];
    assert!(stage.raise(&input, 8, &mut raised, 0, &weighted));
    let mut lowered = [0i64; 8];
    assert!(stage.lower(&raised, 8, &mut lowered, &weighted));
    stage.reset(0);
    let mut silent = [1i64; 4];
    assert!(stage.raise(&[0, 0], 2, &mut silent, 0, &weighted));
    assert_eq!(silent, [0, 0, 0, 0]);
    let mut quiet = [1i64; 2];
    assert!(stage.lower(&[0, 0, 0, 0], 2, &mut quiet, &weighted));
    assert_eq!(quiet, [0, 0]);
}

#[test]
fn raise_refuses_what_does_not_fit_and_changes_nothing() {
    let mut stage: OversamplingStage<i64> = OversamplingStage::new(0, 0);
    let input = [7, 9, -4];
    let mut output = [1i64; 5];
    assert!(!stage.raise(&input, 3, &mut output, 0, &newest));
    assert!(!stage.raise(&input, 4, &mut [1i64; 8], 0, &newest));
    assert!(!stage.raise(&input, usize::MAX, &mut output, 0, &newest));
    assert_eq!(output, [1i64; 5]);
    // Nothing went into the history: the next block starts from silence.
    let mut next = [1i64; 2];
    assert!(stage.raise(&[0], 1, &mut next, 0, &weighted));
    assert_eq!(next, [0, 0]);
}

#[test]
fn lower_refuses_what_does_not_fit_and_changes_nothing() {
    let mut stage: OversamplingStage<i64> = OversamplingStage::new(0, 0);
    let input = [1, 2, 3, 4, 5];
    let mut output = [9i64; 2];
    assert!(!stage.lower(&input, 3, &mut output, &newest));
    assert!(!stage.lower(&[1, 2, 3, 4, 5, 6], 3, &mut output, &newest));
    assert!(!stage.lower(&input, usize::MAX, &mut output, &newest));
    assert_eq!(output, [9i64; 2]);
    let mut next = [1i64; 1];
    assert!(stage.lower(&[0, 0], 1, &mut next, &weighted));
    assert_eq!(next, [0]);
}
