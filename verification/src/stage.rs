//! One stage of the oversampler: it doubles the rate of a block on the way
//! up and halves it on the way down.
//!
//! On the way up a stage puts a zero behind each sample and lets the kernel
//! see its history after every sample and every zero; what the kernel gives
//! is held back by the stage's padding. On the way down the kernel sees the
//! history after every second sample. The stage fixes which samples the
//! kernel sees and where its results go; the kernel itself is handed in.

use vstd::prelude::*;
use crate::delay::{
    DelayLine,
    given_out,
    lemma_line_slides,
    lemma_one_more_sample,
    line_after,
};
use crate::oversampling::{
    KERNEL_DELAY,
    KERNEL_TAPS,
    STAGE_DELAY,
    lemma_stage_delay_is_whole,
    spec_stage_latency,
    spec_stage_padding,
    stage_padding,
};
use vstd::arithmetic::power2::{pow2, lemma_pow2_unfold};

verus! {

/// `samples` at twice their rate: each of them with `zero` behind it.
pub open spec fn stuffed<S>(samples: Seq<S>, zero: S) -> Seq<S> {
    Seq::new(
        2 * samples.len(),
        |j: int|
            if j % 2 == 0 {
                samples[j / 2]
            } else {
                zero
            },
    )
}

/// Whether `result` is what `kernel` gave for a line that holds `window`.
pub open spec fn sees<S, K: Fn(&DelayLine<S>) -> S>(kernel: K, window: Seq<S>, result: S) -> bool {
    exists|line: DelayLine<S>| line@ == window && #[trigger] call_ensures(kernel, (&line,), result)
}

/// Whether `filtered` is what `kernel` makes of a line that holds `line` and
/// is given `fed`: one result for each sample, from the line as it is once
/// that sample is in.
pub open spec fn is_filtered<S, K: Fn(&DelayLine<S>) -> S>(
    kernel: K,
    line: Seq<S>,
    fed: Seq<S>,
    filtered: Seq<S>,
) -> bool {
    &&& filtered.len() == fed.len()
    &&& forall|j: int|
        0 <= j < fed.len() ==> sees(kernel, line_after(line, fed.take(j + 1)), #[trigger] filtered[j])
}

/// Whether `halved` is what `kernel` makes of a line that holds `line` and is
/// given `fed` at twice the rate of `halved`: one result for every second
/// sample, from the line as it is once the first sample of each pair is in.
pub open spec fn is_halved<S, K: Fn(&DelayLine<S>) -> S>(
    kernel: K,
    line: Seq<S>,
    fed: Seq<S>,
    halved: Seq<S>,
) -> bool {
    &&& 2 * halved.len() == fed.len()
    &&& forall|i: int|
        0 <= i < halved.len() ==> sees(
            kernel,
            line_after(line, fed.take(2 * i + 1)),
            #[trigger] halved[i],
        )
}

/// What a stage remembers, each history oldest sample first.
pub struct StageHistory<S> {
    /// What the kernel sees on the way up: the last samples at the raised
    /// rate, zeros included.
    pub raising: Seq<S>,
    /// The results of the way up that are held back: as many as the stage
    /// has padding.
    pub holding: Seq<S>,
    /// What the kernel sees on the way down: the last samples at the raised
    /// rate.
    pub lowering: Seq<S>,
}

/// A history of the lengths of stage `stage`, with `zero` all through.
pub open spec fn silent_history<S>(stage: nat, zero: S) -> StageHistory<S> {
    StageHistory {
        raising: Seq::new(KERNEL_TAPS as nat, |i: int| zero),
        holding: Seq::new(spec_stage_padding(stage), |i: int| zero),
        lowering: Seq::new(KERNEL_TAPS as nat, |i: int| zero),
    }
}

/// `history` with `zero` in place of every sample.
pub open spec fn silenced<S>(history: StageHistory<S>, zero: S) -> StageHistory<S> {
    StageHistory {
        raising: Seq::new(history.raising.len(), |i: int| zero),
        holding: Seq::new(history.holding.len(), |i: int| zero),
        lowering: Seq::new(history.lowering.len(), |i: int| zero),
    }
}

/// Whether a stage that remembers `before` and raises `input` gives `output`
/// and remembers `after`: the kernel sees the history after each sample and
/// after the zero behind it, and its results go through the padding and come
/// out in order.
pub open spec fn is_raised<S, K: Fn(&DelayLine<S>) -> S>(
    kernel: K,
    zero: S,
    before: StageHistory<S>,
    after: StageHistory<S>,
    input: Seq<S>,
    output: Seq<S>,
) -> bool {
    &&& after.raising == line_after(before.raising, stuffed(input, zero))
    &&& after.lowering == before.lowering
    &&& exists|filtered: Seq<S>|
        #[trigger] is_filtered(kernel, before.raising, stuffed(input, zero), filtered)
            && after.holding == line_after(before.holding, filtered) && output == given_out(
            before.holding,
            filtered,
        )
}

/// Whether a stage that remembers `before` and lowers `input` gives `output`
/// and remembers `after`: the kernel sees the history after the first sample
/// of each pair, and the second goes into the history behind it.
pub open spec fn is_lowered<S, K: Fn(&DelayLine<S>) -> S>(
    kernel: K,
    before: StageHistory<S>,
    after: StageHistory<S>,
    input: Seq<S>,
    output: Seq<S>,
) -> bool {
    &&& after.lowering == line_after(before.lowering, input)
    &&& after.raising == before.raising
    &&& after.holding == before.holding
    &&& is_halved(kernel, before.lowering, input, output)
}

/// The histories of one stage.
pub struct OversamplingStage<S> {
    raise: DelayLine<S>,
    hold: DelayLine<S>,
    lower: DelayLine<S>,
}

impl<S> View for OversamplingStage<S> {
    type V = StageHistory<S>;

    /// What the stage remembers.
    closed spec fn view(&self) -> StageHistory<S> {
        StageHistory { raising: self.raise@, holding: self.hold@, lowering: self.lower@ }
    }
}

impl<S: Copy> OversamplingStage<S> {
    /// Stage `stage` of an oversampler, with `zero` all through its
    /// histories.
    pub fn new(stage: usize, zero: S) -> (made: Self)
        requires
            stage + 1 < usize::BITS,
        ensures
            made@ == silent_history(stage as nat, zero),
    {
        OversamplingStage {
            raise: DelayLine::new(KERNEL_TAPS, zero),
            hold: DelayLine::new(stage_padding(stage), zero),
            lower: DelayLine::new(KERNEL_TAPS, zero),
        }
    }

    /// Overwrites the histories with `zero`.
    pub fn reset(&mut self, zero: S)
        ensures
            final(self)@ == silenced(old(self)@, zero),
    {
        self.raise.reset(zero);
        self.hold.reset(zero);
        self.lower.reset(zero);
    }

    /// The way up: turns the first `count` samples of `input` into the first
    /// `2 * count` samples of `output`, and leaves the rest of `output` as it
    /// is. Returns whether that was done: where `input` has fewer than
    /// `count` samples or `output` fewer than `2 * count`, nothing is
    /// changed.
    pub fn raise<K: Fn(&DelayLine<S>) -> S>(
        &mut self,
        input: &[S],
        count: usize,
        output: &mut [S],
        zero: S,
        kernel: &K,
    ) -> (done: bool)
        requires
            forall|line: DelayLine<S>| call_requires(*kernel, (&line,)),
        ensures
            done == (count <= input@.len() && 2 * count <= old(output)@.len()),
            final(output)@.len() == old(output)@.len(),
            !done ==> final(self)@ == old(self)@ && final(output)@ == old(output)@,
            done ==> is_raised(
                *kernel,
                zero,
                old(self)@,
                final(self)@,
                input@.take(count as int),
                final(output)@.take(2 * count),
            ),
            done ==> final(output)@.skip(2 * count) == old(output)@.skip(2 * count),
    {
        if count > input.len() || count > output.len() / 2 {
            return false;
        }
        let ghost fed = stuffed(input@.take(count as int), zero);
        let ghost raising = self@.raising;
        let ghost holding = self@.holding;
        let ghost lowering = self@.lowering;
        let ghost untouched = output@;
        let ghost mut filtered: Seq<S> = Seq::empty();
        let room = output.len();
        let mut i: usize = 0;
        assert(fed.take(0) =~= Seq::<S>::empty());
        assert(output@.take(0) =~= Seq::<S>::empty());
        while i < count
            invariant
                i <= count <= input@.len(),
                2 * count <= room,
                output@.len() == room,
                untouched.len() == room,
                fed == stuffed(input@.take(count as int), zero),
                filtered.len() == 2 * i,
                self@.raising == line_after(raising, fed.take(2 * i)),
                self@.holding == line_after(holding, filtered),
                self@.lowering == lowering,
                forall|j: int|
                    0 <= j < 2 * i ==> sees(
                        *kernel,
                        line_after(raising, fed.take(j + 1)),
                        #[trigger] filtered[j],
                    ),
                output@.take(2 * i) == given_out(holding, filtered),
                forall|k: int| 2 * i <= k < output@.len() ==> output@[k] == untouched[k],
                forall|line: DelayLine<S>| call_requires(*kernel, (&line,)),
            decreases count - i,
        {
            let ghost seen = filtered;
            let ghost written = output@;
            let sample = input[i];
            proof {
                assert(fed[2 * i] == sample);
                assert(fed[2 * i + 1] == zero);
                assert(fed.take(2 * i + 1) =~= fed.take(2 * i).push(sample));
                assert(fed.take(2 * i + 2) =~= fed.take(2 * i + 1).push(zero));
                lemma_one_more_sample(raising, fed.take(2 * i), sample);
                lemma_one_more_sample(raising, fed.take(2 * i + 1), zero);
            }
            let _ = self.raise.push(sample);
            let first = kernel(&self.raise);
            proof {
                assert(sees(*kernel, line_after(raising, fed.take(2 * i + 1)), first)) by {
                    assert(self.raise@ == line_after(raising, fed.take(2 * i + 1)));
                    assert(call_ensures(*kernel, (&self.raise,), first));
                }
                lemma_one_more_sample(holding, seen, first);
            }
            let out_first = self.hold.push(first);
            output[2 * i] = out_first;
            let _ = self.raise.push(zero);
            let second = kernel(&self.raise);
            proof {
                assert(sees(*kernel, line_after(raising, fed.take(2 * i + 2)), second)) by {
                    assert(self.raise@ == line_after(raising, fed.take(2 * i + 2)));
                    assert(call_ensures(*kernel, (&self.raise,), second));
                }
                lemma_one_more_sample(holding, seen.push(first), second);
            }
            let out_second = self.hold.push(second);
            output[2 * i + 1] = out_second;
            proof {
                filtered = seen.push(first).push(second);
                assert(output@.take(2 * i + 2) =~= written.take(2 * i as int).push(out_first).push(
                    out_second,
                ));
            }
            i = i + 1;
        }
        proof {
            assert(fed.take(2 * count) =~= fed);
            assert(is_filtered(*kernel, raising, fed, filtered));
            assert(output@.skip(2 * count) =~= untouched.skip(2 * count));
        }
        true
    }

    /// The way down: turns the first `2 * count` samples of `input` into the
    /// first `count` samples of `output`, and leaves the rest of `output` as
    /// it is. Returns whether that was done: where `input` has fewer than
    /// `2 * count` samples or `output` fewer than `count`, nothing is
    /// changed.
    pub fn lower<K: Fn(&DelayLine<S>) -> S>(
        &mut self,
        input: &[S],
        count: usize,
        output: &mut [S],
        kernel: &K,
    ) -> (done: bool)
        requires
            forall|line: DelayLine<S>| call_requires(*kernel, (&line,)),
        ensures
            done == (2 * count <= input@.len() && count <= old(output)@.len()),
            final(output)@.len() == old(output)@.len(),
            !done ==> final(self)@ == old(self)@ && final(output)@ == old(output)@,
            done ==> is_lowered(
                *kernel,
                old(self)@,
                final(self)@,
                input@.take(2 * count),
                final(output)@.take(count as int),
            ),
            done ==> final(output)@.skip(count as int) == old(output)@.skip(count as int),
    {
        if count > input.len() / 2 || count > output.len() {
            return false;
        }
        let ghost fed = input@.take(2 * count);
        let ghost raising = self@.raising;
        let ghost holding = self@.holding;
        let ghost lowering = self@.lowering;
        let ghost untouched = output@;
        let given = input.len();
        let mut i: usize = 0;
        assert(fed.take(0) =~= Seq::<S>::empty());
        while i < count
            invariant
                i <= count,
                2 * count <= given,
                input@.len() == given,
                count <= output@.len(),
                output@.len() == untouched.len(),
                fed == input@.take(2 * count),
                self@.lowering == line_after(lowering, fed.take(2 * i)),
                self@.raising == raising,
                self@.holding == holding,
                forall|j: int|
                    0 <= j < i ==> sees(
                        *kernel,
                        line_after(lowering, fed.take(2 * j + 1)),
                        #[trigger] output@[j],
                    ),
                forall|k: int| i <= k < output@.len() ==> output@[k] == untouched[k],
                forall|line: DelayLine<S>| call_requires(*kernel, (&line,)),
            decreases count - i,
        {
            let first = input[2 * i];
            let second = input[2 * i + 1];
            proof {
                assert(fed.take(2 * i + 1) =~= fed.take(2 * i).push(first));
                assert(fed.take(2 * i + 2) =~= fed.take(2 * i + 1).push(second));
                lemma_one_more_sample(lowering, fed.take(2 * i), first);
                lemma_one_more_sample(lowering, fed.take(2 * i + 1), second);
            }
            let _ = self.lower.push(first);
            let result = kernel(&self.lower);
            proof {
                assert(sees(*kernel, line_after(lowering, fed.take(2 * i + 1)), result)) by {
                    assert(self.lower@ == line_after(lowering, fed.take(2 * i + 1)));
                    assert(call_ensures(*kernel, (&self.lower,), result));
                }
            }
            output[i] = result;
            let _ = self.lower.push(second);
            i = i + 1;
        }
        proof {
            assert(fed.take(2 * count) =~= fed);
            assert(output@.skip(count as int) =~= untouched.skip(count as int));
            let halved = output@.take(count as int);
            assert forall|j: int| 0 <= j < halved.len() implies sees(
                *kernel,
                line_after(lowering, fed.take(2 * j + 1)),
                #[trigger] halved[j],
            ) by {
                assert(halved[j] == output@[j]);
            }
        }
        true
    }
}

/// Whether `kernel` does nothing but delay: of a line of `KERNEL_TAPS`
/// samples it gives the one in the middle, which went in `KERNEL_DELAY`
/// samples before the newest.
pub open spec fn is_centre_tap<S, K: Fn(&DelayLine<S>) -> S>(kernel: K) -> bool {
    forall|line: DelayLine<S>, result: S|
        #[trigger] call_ensures(kernel, (&line,), result) && line@.len() == KERNEL_TAPS
            ==> result == line@[KERNEL_DELAY as int]
}

/// Whether `output` is `input`, later by `delay` samples.
pub open spec fn is_delayed<S>(input: Seq<S>, output: Seq<S>, delay: nat) -> bool {
    &&& output.len() == input.len()
    &&& forall|i: int| delay <= i < input.len() ==> #[trigger] output[i] == input[i - delay]
}

/// Whether the first `delay` samples of `output`, or all if it has fewer, are
/// `zero`.
pub open spec fn starts_silent<S>(output: Seq<S>, delay: nat, zero: S) -> bool {
    forall|i: int| 0 <= i < delay && i < output.len() ==> #[trigger] output[i] == zero
}

/// Whether `history` has the lengths of a stage with `padding` samples of
/// padding.
pub open spec fn is_sized<S>(history: StageHistory<S>, padding: nat) -> bool {
    &&& history.raising.len() == KERNEL_TAPS
    &&& history.holding.len() == padding
    &&& history.lowering.len() == KERNEL_TAPS
}

/// The way up gives two samples for each one it is given, and leaves each
/// history as long as it was.
pub proof fn lemma_raise_keeps_sizes<S, K: Fn(&DelayLine<S>) -> S>(
    kernel: K,
    zero: S,
    before: StageHistory<S>,
    after: StageHistory<S>,
    input: Seq<S>,
    output: Seq<S>,
)
    requires
        is_raised(kernel, zero, before, after, input, output),
    ensures
        output.len() == 2 * input.len(),
        after.raising.len() == before.raising.len(),
        after.holding.len() == before.holding.len(),
        after.lowering.len() == before.lowering.len(),
{
    let fed = stuffed(input, zero);
    let filtered = choose|filtered: Seq<S>|
        #[trigger] is_filtered(kernel, before.raising, fed, filtered) && after.holding
            == line_after(before.holding, filtered) && output == given_out(
            before.holding,
            filtered,
        );
    lemma_line_slides(before.raising, fed);
    lemma_line_slides(before.holding, filtered);
}

/// The way down gives one sample for each two it is given, and leaves each
/// history as long as it was.
pub proof fn lemma_lower_keeps_sizes<S, K: Fn(&DelayLine<S>) -> S>(
    kernel: K,
    before: StageHistory<S>,
    after: StageHistory<S>,
    input: Seq<S>,
    output: Seq<S>,
)
    requires
        is_lowered(kernel, before, after, input, output),
    ensures
        2 * output.len() == input.len(),
        after.raising.len() == before.raising.len(),
        after.holding.len() == before.holding.len(),
        after.lowering.len() == before.lowering.len(),
{
    lemma_line_slides(before.lowering, input);
}

/// What the kernel gave on the way up, where it does nothing but delay: the
/// sample that went in `KERNEL_DELAY` samples before, or the history's where
/// there is none.
proof fn lemma_centre_of_window<S, K: Fn(&DelayLine<S>) -> S>(
    kernel: K,
    line: Seq<S>,
    fed: Seq<S>,
    at: int,
    result: S,
)
    requires
        is_centre_tap(kernel),
        line.len() == KERNEL_TAPS,
        0 <= at < fed.len(),
        sees(kernel, line_after(line, fed.take(at + 1)), result),
    ensures
        result == if at >= KERNEL_DELAY {
            fed[at - KERNEL_DELAY]
        } else {
            line[at + 1 + KERNEL_DELAY]
        },
{
    lemma_line_slides(line, fed.take(at + 1));
    let window = line_after(line, fed.take(at + 1));
    assert(window.len() == KERNEL_TAPS);
    assert(window[KERNEL_DELAY as int] == (line + fed.take(at + 1))[at + 1 + KERNEL_DELAY]);
}

/// Which sample comes out of the way up at place `at`, where the kernel does
/// nothing but delay: the sample that went in `KERNEL_DELAY` samples and the
/// padding before, zeros counted, or one that the stage remembered.
proof fn lemma_raised_sample<S, U: Fn(&DelayLine<S>) -> S>(
    raise_kernel: U,
    zero: S,
    before: StageHistory<S>,
    mid: StageHistory<S>,
    samples: Seq<S>,
    raised: Seq<S>,
    at: int,
)
    requires
        is_centre_tap(raise_kernel),
        before.raising.len() == KERNEL_TAPS,
        is_raised(raise_kernel, zero, before, mid, samples, raised),
        0 <= at < 2 * samples.len(),
    ensures
        raised.len() == 2 * samples.len(),
        raised[at] == if at < before.holding.len() {
            before.holding[at]
        } else if at - before.holding.len() < KERNEL_DELAY {
            before.raising[at - before.holding.len() + 1 + KERNEL_DELAY]
        } else {
            stuffed(samples, zero)[at - before.holding.len() - KERNEL_DELAY]
        },
{
    let fed = stuffed(samples, zero);
    let filtered = choose|filtered: Seq<S>|
        #[trigger] is_filtered(raise_kernel, before.raising, fed, filtered) && mid.holding
            == line_after(before.holding, filtered) && raised == given_out(
            before.holding,
            filtered,
        );
    let padding = before.holding.len() as int;
    lemma_line_slides(before.holding, filtered);
    if at >= padding {
        let sent = at - padding;
        assert(raised[at] == filtered[sent]);
        assert(sees(raise_kernel, line_after(before.raising, fed.take(sent + 1)), filtered[sent]));
        lemma_centre_of_window(raise_kernel, before.raising, fed, sent, filtered[sent]);
    }
}

/// Which sample comes out of the way down at place `at`, where the kernel
/// does nothing but delay: the sample that went in `KERNEL_DELAY` samples
/// before the first of its pair, or one that the stage remembered.
proof fn lemma_lowered_sample<S, D: Fn(&DelayLine<S>) -> S>(
    lower_kernel: D,
    mid: StageHistory<S>,
    after: StageHistory<S>,
    returned: Seq<S>,
    lowered: Seq<S>,
    at: int,
)
    requires
        is_centre_tap(lower_kernel),
        mid.lowering.len() == KERNEL_TAPS,
        is_lowered(lower_kernel, mid, after, returned, lowered),
        0 <= at < lowered.len(),
    ensures
        returned.len() == 2 * lowered.len(),
        lowered[at] == if 2 * at >= KERNEL_DELAY {
            returned[2 * at - KERNEL_DELAY]
        } else {
            mid.lowering[2 * at + 1 + KERNEL_DELAY]
        },
{
    assert(sees(lower_kernel, line_after(mid.lowering, returned.take(2 * at + 1)), lowered[at]));
    lemma_centre_of_window(lower_kernel, mid.lowering, returned, 2 * at, lowered[at]);
}

/// With kernels that do nothing but delay, a stage delays by half of what its
/// two passes through the kernel and its padding add up to at the raised
/// rate, on top of half the delay of what happens between its way up and its
/// way down: if what it lowers is what it raised, later by `2 * inner`
/// samples, then what comes out is what went in, later by `delay + inner`.
/// Where the stage remembers nothing but `zero` and what it lowers starts
/// with `zero` for those `2 * inner` samples, what comes out starts with
/// `zero` for `delay + inner` samples.
pub proof fn lemma_stage_delays<S, U: Fn(&DelayLine<S>) -> S, D: Fn(&DelayLine<S>) -> S>(
    raise_kernel: U,
    lower_kernel: D,
    zero: S,
    before: StageHistory<S>,
    mid: StageHistory<S>,
    after: StageHistory<S>,
    samples: Seq<S>,
    raised: Seq<S>,
    returned: Seq<S>,
    lowered: Seq<S>,
    delay: nat,
    inner: nat,
)
    requires
        is_centre_tap(raise_kernel),
        is_centre_tap(lower_kernel),
        before.raising.len() == KERNEL_TAPS,
        before.lowering.len() == KERNEL_TAPS,
        STAGE_DELAY + before.holding.len() == 2 * delay,
        is_raised(raise_kernel, zero, before, mid, samples, raised),
        is_lowered(lower_kernel, mid, after, returned, lowered),
        is_delayed(raised, returned, 2 * inner),
    ensures
        is_delayed(samples, lowered, delay + inner),
        before == silenced(before, zero) && starts_silent(returned, 2 * inner, zero)
            ==> starts_silent(lowered, delay + inner, zero),
{
    let fed = stuffed(samples, zero);
    let padding = before.holding.len() as int;
    if samples.len() > 0 {
        lemma_raised_sample(raise_kernel, zero, before, mid, samples, raised, 0);
    } else {
        assert(is_halved(lower_kernel, mid.lowering, returned, lowered));
    }
    assert(lowered.len() == samples.len());
    assert forall|i: int| delay + inner <= i < samples.len() implies #[trigger] lowered[i]
        == samples[i - delay - inner] by {
        lemma_lowered_sample(lower_kernel, mid, after, returned, lowered, i);
        let at = 2 * i - KERNEL_DELAY - 2 * inner;
        assert(returned[2 * i - KERNEL_DELAY] == raised[at]);
        lemma_raised_sample(raise_kernel, zero, before, mid, samples, raised, at);
        let source = at - padding - KERNEL_DELAY;
        assert(source == 2 * (i - delay - inner));
        assert(fed[source] == samples[i - delay - inner]);
    }
    if before == silenced(before, zero) && starts_silent(returned, 2 * inner, zero) {
        assert forall|i: int| 0 <= i < delay + inner && i < lowered.len() implies #[trigger] lowered[i]
            == zero by {
            lemma_lowered_sample(lower_kernel, mid, after, returned, lowered, i);
            if 2 * i >= KERNEL_DELAY {
                let back = 2 * i - KERNEL_DELAY;
                if back >= 2 * inner {
                    let at = back - 2 * inner;
                    assert(returned[back] == raised[at]);
                    lemma_raised_sample(raise_kernel, zero, before, mid, samples, raised, at);
                } else {
                    assert(returned[back] == zero);
                }
            }
        }
    }
}

/// The delay of stage `stage` at the rate of its input, which is `pow2(stage)`
/// times the base rate, is half of what its kernels and its padding add up to
/// at the rate it raises to: `lemma_stage_delays` holds of a stage with this
/// delay.
pub proof fn lemma_stage_delay_at_input_rate(stage: nat)
    ensures
        STAGE_DELAY + spec_stage_padding(stage) == 2 * (spec_stage_latency(stage) * pow2(stage)),
{
    lemma_stage_delay_is_whole(stage);
    lemma_pow2_unfold(stage + 1);
    let whole = spec_stage_latency(stage) as int;
    let rate = pow2(stage) as int;
    assert(whole * (2 * rate) == 2 * (whole * rate)) by (nonlinear_arith);
}

} // verus!
