use melter::channel::{process_region, process_sample, Arithmetic, Channel};
use melter::delay::DelayLine;
use melter::equalization::ParametricEQ;
use melter::oversampler::Oversampler;

/// The parameters of one sample.
#[derive(Clone, Copy, Debug, PartialEq)]
struct Frame {
    gain: i64,
    drive: i64,
    boosts: [i64; 2],
}

/// A band that adds its boost to a sample and counts the samples it has seen.
#[derive(Clone, Copy, Debug, PartialEq)]
struct Band {
    boost: i64,
    seen: u32,
}

fn gain(x: i64, frame: &Frame) -> i64 {
    x * frame.gain
}

fn tune(band: &Band, index: usize, rate: &i64, frame: &Frame) -> Band {
    Band { boost: frame.boosts[index] + *rate, seen: band.seen }
}

fn band(band: &Band, x: i64) -> (Band, i64) {
    (Band { boost: band.boost, seen: band.seen + 1 }, x + band.boost)
}

fn shape(x: i64, frame: &Frame) -> i64 {
    x * x + frame.drive
}

/// A DC blocker that gives the difference to the sample before.
fn block_dc(dc: &i64, x: i64) -> (i64, i64) {
    (x, x - *dc)
}

fn centre(line: &DelayLine<i64>) -> i64 {
    line.tap(5).unwrap_or(0)
}

type Ops = Arithmetic<
    fn(i64, &Frame) -> i64,
    fn(&Band, usize, &i64, &Frame) -> Band,
    fn(&Band, i64) -> (Band, i64),
    fn(i64, &Frame) -> i64,
    fn(&i64, i64) -> (i64, i64),
>;

fn ops() -> Ops {
    Arithmetic { gain, tune, band, shape, block_dc }
}

fn two_bands(rate: i64) -> ParametricEQ<i64, Band> {
    let mut eq = ParametricEQ::new(rate);
    assert_eq!(eq.add_band(|_| Band { boost: 0, seen: 0 }), Ok(()));
    assert_eq!(eq.add_band(|_| Band { boost: 0, seen: 0 }), Ok(()));
    eq
}

fn channel(rate: i64) -> Channel<i64, i64, Band, i64> {
    Channel {
        oversampler: Oversampler::new(8, 2, 0).expect("a small oversampler"),
        eq: two_bands(rate),
        dc_blocker: 0,
    }
}

const FRAME: Frame = Frame { gain: 2, drive: 5, boosts: [1, 10] };

#[test]
fn with_the_switch_set_a_sample_meets_the_equalizer_before_the_shaper() {
    let mut eq = two_bands(0);
    let mut dc = 0i64;
    // 3 * 2 = 6; 6 + 1 + 10 = 17; 17 * 17 + 5 = 294; 294 - 0 = 294.
    assert_eq!(process_sample(&mut eq, &mut dc, 3, &FRAME, true, &ops()), 294);
    assert_eq!(dc, 294);
    // 1 * 2 = 2; 2 + 11 = 13; 13 * 13 + 5 = 174; 174 - 294 = -120.
    assert_eq!(process_sample(&mut eq, &mut dc, 1, &FRAME, true, &ops()), -120);
    assert_eq!(dc, 174);
}

#[test]
fn with_the_switch_not_set_a_sample_meets_the_equalizer_behind_the_dc_blocker() {
    let mut eq = two_bands(0);
    let mut dc = 0i64;
    // 3 * 2 = 6; 6 * 6 + 5 = 41; 41 - 0 = 41; 41 + 1 + 10 = 52.
    assert_eq!(process_sample(&mut eq, &mut dc, 3, &FRAME, false, &ops()), 52);
    assert_eq!(dc, 41);
    // 1 * 2 = 2; 2 * 2 + 5 = 9; 9 - 41 = -32; -32 + 11 = -21.
    assert_eq!(process_sample(&mut eq, &mut dc, 1, &FRAME, false, &ops()), -21);
    assert_eq!(dc, 9);
}

#[test]
fn a_sample_goes_through_the_equalizer_once_either_way() {
    for switch in [false, true] {
        let mut eq = two_bands(0);
        let mut dc = 0i64;
        let _ = process_sample(&mut eq, &mut dc, 3, &FRAME, switch, &ops());
        assert_eq!(eq.band(0).map(|b| b.seen), Some(1));
        assert_eq!(eq.band(1).map(|b| b.seen), Some(1));
        let _ = process_sample(&mut eq, &mut dc, 3, &FRAME, switch, &ops());
        assert_eq!(eq.band(0).map(|b| b.seen), Some(2));
        assert_eq!(eq.band(1).map(|b| b.seen), Some(2));
    }
}

#[test]
fn the_bands_are_tuned_for_each_sample_before_it_is_worked_on() {
    let mut eq = two_bands(1000);
    let mut dc = 0i64;
    let frame = Frame { gain: 1, drive: 0, boosts: [3, 4] };
    // The bands are tuned to 1003 and 1004 before the sample meets them:
    // 5 * 5 + 0 = 25; 25 - 0 = 25; 25 + 1003 + 1004 = 2032.
    assert_eq!(process_sample(&mut eq, &mut dc, 5, &frame, false, &ops()), 2032);
    assert_eq!(eq.band(0), Some(&Band { boost: 1003, seen: 1 }));
    assert_eq!(eq.band(1), Some(&Band { boost: 1004, seen: 1 }));
    assert_eq!(*eq.sample_rate(), 1000);
}

#[test]
fn a_chain_without_bands_is_gain_shaper_and_dc_blocker() {
    let mut eq: ParametricEQ<i64, Band> = ParametricEQ::new(0);
    let mut dc = 4i64;
    for switch in [false, true] {
        // 3 * 2 = 6; 6 * 6 + 5 = 41; 41 less the sample before.
        let before = dc;
        assert_eq!(process_sample(&mut eq, &mut dc, 3, &FRAME, switch, &ops()), 41 - before);
        assert_eq!(dc, 41);
    }
}

#[test]
fn a_region_takes_each_sample_with_its_own_frame() {
    let mut eq = two_bands(0);
    let mut dc = 0i64;
    let mut region = [3, 1, 0];
    let frames = [
        FRAME,
        Frame { gain: 1, drive: 0, boosts: [0, 0] },
        Frame { gain: 7, drive: -1, boosts: [2, 2] },
    ];
    assert!(process_region(&mut eq, &mut dc, &mut region, &frames, true, &ops()));
    // 294 as above; then 1, 1 * 1 + 0 = 1, 1 - 294 = -293; then 0 + 4 = 4, 16 - 1 = 15, 15 - 1 = 14.
    assert_eq!(region, [294, -293, 14]);
    assert_eq!(dc, 15);
    assert_eq!(eq.band(0), Some(&Band { boost: 2, seen: 3 }));
}

#[test]
fn a_region_without_a_frame_for_each_sample_is_left_alone() {
    let mut eq = two_bands(0);
    let mut dc = 9i64;
    let mut region = [3, 1, 0];
    assert!(!process_region(&mut eq, &mut dc, &mut region, &[FRAME, FRAME], true, &ops()));
    assert!(!process_region(&mut eq, &mut dc, &mut region, &[FRAME; 4], false, &ops()));
    assert_eq!(region, [3, 1, 0]);
    assert_eq!(dc, 9);
    assert_eq!(eq.band(0), Some(&Band { boost: 0, seen: 0 }));
}

#[test]
fn an_empty_region_is_done_with_no_frames() {
    let mut eq = two_bands(0);
    let mut dc = 9i64;
    let mut region: [i64; 0] = [];
    assert!(process_region(&mut eq, &mut dc, &mut region, &[], true, &ops()));
    assert_eq!(dc, 9);
}

#[test]
fn a_block_at_factor_zero_is_the_region_itself() {
    let mut channel = channel(0);
    let mut block = [3, 1];
    let frames = [FRAME, FRAME];
    assert!(channel.process_block(&mut block, 0, true, &frames, 0, &ops(), &centre, &centre));
    assert_eq!(block, [294, -120]);
    assert_eq!(channel.dc_blocker, 174);
}

#[test]
fn a_block_is_worked_on_at_the_raised_rate() {
    let mut channel = channel(0);
    let mut block = [1i64; 8];
    let frame = Frame { gain: 1, drive: 0, boosts: [0, 0] };
    let frames = [frame; 16];
    // With pure delays for kernels the raised block is five zeros, then 1 0 1 0 ...; squared it
    // is itself; its differences are 1 at the sixth place and then -1 1 -1 ...; the way down
    // takes the places 1, 3, 5, ... of these, five places late.
    assert!(channel.process_block(&mut block, 1, false, &frames, 0, &ops(), &centre, &centre));
    assert_eq!(block, [0, 0, 0, 0, 0, 1, 1, 1]);
    for index in 0..2 {
        assert_eq!(channel.eq.band(index).map(|b| b.seen), Some(16));
    }
}

#[test]
fn a_block_needs_a_frame_for_each_raised_sample() {
    let mut channel = channel(0);
    let mut block = [1i64; 8];
    let frames = [FRAME; 32];
    assert!(!channel.process_block(&mut block, 1, false, &frames[..8], 0, &ops(), &centre, &centre));
    assert!(!channel.process_block(&mut block, 1, false, &frames[..17], 0, &ops(), &centre, &centre));
    assert!(!channel.process_block(&mut block, 2, false, &frames[..16], 0, &ops(), &centre, &centre));
    assert_eq!(block, [1i64; 8]);
    assert_eq!(channel.dc_blocker, 0);
    assert_eq!(channel.eq.band(0), Some(&Band { boost: 0, seen: 0 }));
    assert!(channel.process_block(&mut block, 2, false, &frames, 0, &ops(), &centre, &centre));
}

#[test]
fn a_block_the_oversampler_refuses_is_left_alone() {
    let mut channel = channel(0);
    let mut long = [1i64; 9];
    let frames = [FRAME; 72];
    assert!(!channel.process_block(&mut long, 0, true, &frames[..9], 0, &ops(), &centre, &centre));
    assert_eq!(long, [1i64; 9]);
    let mut block = [1i64; 8];
    assert!(!channel.process_block(&mut block, 3, true, &frames[..64], 0, &ops(), &centre, &centre));
    assert_eq!(block, [1i64; 8]);
    assert_eq!(channel.dc_blocker, 0);
}

#[test]
fn set_sample_rate_tunes_the_bands_and_the_dc_blocker() {
    let mut channel = channel(1);
    channel.set_sample_rate(
        48,
        &|band: &Band, rate: &i64| Band { boost: band.boost + *rate, seen: band.seen },
        &|dc: &i64, rate: &i64| *dc + *rate * 2,
    );
    assert_eq!(*channel.eq.sample_rate(), 48);
    assert_eq!(channel.eq.band(0), Some(&Band { boost: 48, seen: 0 }));
    assert_eq!(channel.eq.band(1), Some(&Band { boost: 48, seen: 0 }));
    assert_eq!(channel.dc_blocker, 96);
}

#[test]
fn reset_silences_the_oversampler_of_the_channel() {
    let frame = Frame { gain: 1, drive: 0, boosts: [0, 0] };
    let frames = [frame; 16];
    // Without a reset the block after a block of ones still carries what the stages remember.
    let mut unreset = channel(0);
    let mut block = [1i64; 8];
    assert!(unreset.process_block(&mut block, 1, true, &frames, 0, &ops(), &centre, &centre));
    let mut carried = [0i64; 8];
    assert!(unreset.process_block(&mut carried, 1, true, &frames, 0, &ops(), &centre, &centre));
    assert_eq!(carried, [1, 1, 1, 1, 1, 0, 0, 0]);
    // With a reset it carries nothing; the equalizer and the DC blocker are not reset.
    let mut channel = channel(0);
    let mut block = [1i64; 8];
    assert!(channel.process_block(&mut block, 1, true, &frames, 0, &ops(), &centre, &centre));
    let dc = channel.dc_blocker;
    channel.reset(0);
    assert_eq!(channel.dc_blocker, dc);
    assert_eq!(channel.eq.band(0).map(|b| b.seen), Some(16));
    let mut quiet = [0i64; 8];
    assert!(channel.process_block(&mut quiet, 1, true, &frames, 0, &ops(), &centre, &centre));
    assert_eq!(quiet, [0i64; 8]);
}

#[test]
fn a_channel_whose_steps_change_nothing_is_a_delay_by_the_latency() {
    let same = |x: i64, _: &Frame| x;
    let keep = |band: &Band, _: usize, _: &i64, _: &Frame| *band;
    let through = |band: &Band, x: i64| (*band, x);
    let unblocked = |dc: &i64, x: i64| (*dc, x);
    let ops = Arithmetic { gain: same, tune: keep, band: through, shape: same, block_dc: unblocked };
    for switch in [false, true] {
        for (factor, delay) in [(0usize, 0usize), (1, 5), (2, 8)] {
            let mut channel = channel(0);
            let frames = [FRAME; 32];
            let mut sent: Vec<i64> = Vec::new();
            let mut received: Vec<i64> = Vec::new();
            for start in [1i64, 9, 17, 25] {
                let mut block: Vec<i64> = (start..start + 8).collect();
                sent.extend_from_slice(&block);
                let needed = 8 << factor;
                assert!(channel.process_block(
                    &mut block,
                    factor,
                    switch,
                    &frames[..needed],
                    0,
                    &ops,
                    &centre,
                    &centre
                ));
                received.extend_from_slice(&block);
            }
            for i in 0..sent.len() {
                let expected = if i >= delay { sent[i - delay] } else { 0 };
                assert_eq!(received[i], expected, "factor {} sample {}", factor, i);
            }
        }
    }
}
