//! One channel of the signal chain: an oversampler, an equalizer and a DC
//! blocker, and the order in which they work on a block.
//!
//! At the raised rate each sample goes through the input gain, the shaper and
//! the DC blocker, in this order, and through the equalizer exactly once:
//! before the shaper or behind the DC blocker. Before each sample the bands
//! of the equalizer are given the parameters of that sample. What the steps
//! compute is handed in by the caller as an `Arithmetic`; the channel fixes
//! their order and what each of them is given.

use vstd::prelude::*;
use crate::delay::DelayLine;
use crate::equalization::{ParametricEQ, is_cascade};
use crate::oversampler::{
    Oversampler,
    are_sized,
    are_silent,
    is_way_down,
    is_way_up,
    lemma_round_trip_is_delay,
    lemma_up_lengths,
};
use crate::oversampling::{spec_latency, upsampled};
use crate::stage::{StageHistory, is_centre_tap, is_delayed, silenced, starts_silent};

verus! {

/// The steps of the chain that compute. `S` is a sample, `P` the parameters
/// of one sample at the raised rate, `R` a sample rate, `B` a band of the
/// equalizer and `D` a DC blocker.
pub struct Arithmetic<G, T, E, H, C> {
    /// The input gain: `Fn(S, &P) -> S`.
    pub gain: G,
    /// Gives a band, named by its index, the parameters of a sample, for the
    /// sample rate of the equalizer: `Fn(&B, usize, &R, &P) -> B`.
    pub tune: T,
    /// One band of the equalizer on one sample: `Fn(&B, S) -> (B, S)`.
    pub band: E,
    /// The shaper: `Fn(S, &P) -> S`.
    pub shape: H,
    /// The DC blocker on one sample: `Fn(&D, S) -> (D, S)`.
    pub block_dc: C,
}

/// Whether every step can be called on every input.
pub open spec fn is_total<S, P, R, B, D, G, T, E, H, C>(ops: Arithmetic<G, T, E, H, C>) -> bool where
    G: Fn(S, &P) -> S,
    T: Fn(&B, usize, &R, &P) -> B,
    E: Fn(&B, S) -> (B, S),
    H: Fn(S, &P) -> S,
    C: Fn(&D, S) -> (D, S),
 {
    &&& forall|x: S, frame: P| call_requires(ops.gain, (x, &frame))
    &&& forall|band: B, index: usize, rate: R, frame: P|
        call_requires(ops.tune, (&band, index, &rate, &frame))
    &&& forall|band: B, x: S| call_requires(ops.band, (&band, x))
    &&& forall|x: S, frame: P| call_requires(ops.shape, (x, &frame))
    &&& forall|dc: D, x: S| call_requires(ops.block_dc, (&dc, x))
}

/// What happens to one sample on its way through the chain.
pub struct SampleTrace<S, B> {
    /// The bands with the parameters of the sample.
    pub tuned: Seq<B>,
    /// The sample behind the input gain.
    pub gained: S,
    /// The sample behind the shaper.
    pub shaped: S,
    /// The sample before the first band of the equalizer, between each two
    /// bands, and behind the last.
    pub signal: Seq<S>,
}

/// Whether a chain with bands `bands` and DC blocker `dc` turns `x` into `y`
/// and is left with `bands_after` and `dc_after`, as `trace` records: the
/// bands are tuned for the sample, the gain is applied, and then the sample
/// goes through equalizer, shaper and DC blocker where `pre_post_eq` is set,
/// and through shaper, DC blocker and equalizer where it is not.
pub open spec fn is_sample<S, P, R, B, D, G, T, E, H, C>(
    ops: Arithmetic<G, T, E, H, C>,
    pre_post_eq: bool,
    frame: P,
    rate: R,
    bands: Seq<B>,
    dc: D,
    x: S,
    bands_after: Seq<B>,
    dc_after: D,
    y: S,
    trace: SampleTrace<S, B>,
) -> bool where
    G: Fn(S, &P) -> S,
    T: Fn(&B, usize, &R, &P) -> B,
    E: Fn(&B, S) -> (B, S),
    H: Fn(S, &P) -> S,
    C: Fn(&D, S) -> (D, S),
 {
    &&& trace.tuned.len() == bands.len()
    &&& forall|k: int|
        0 <= k < bands.len() ==> call_ensures(
            ops.tune,
            (&bands[k], k as usize, &rate, &frame),
            #[trigger] trace.tuned[k],
        )
    &&& call_ensures(ops.gain, (x, &frame), trace.gained)
    &&& is_cascade(ops.band, trace.tuned, bands_after, trace.signal)
    &&& if pre_post_eq {
        &&& trace.signal[0] == trace.gained
        &&& call_ensures(ops.shape, (trace.signal.last(), &frame), trace.shaped)
        &&& call_ensures(ops.block_dc, (&dc, trace.shaped), (dc_after, y))
    } else {
        &&& call_ensures(ops.shape, (trace.gained, &frame), trace.shaped)
        &&& call_ensures(ops.block_dc, (&dc, trace.shaped), (dc_after, trace.signal[0]))
        &&& trace.signal.last() == y
    }
}

/// Whether a chain turns the samples `before` into `after`, one after the
/// other, each with its own frame of `frames`: `bands[i]` and `dcs[i]` are
/// the bands and the DC blocker before sample `i`, and `traces[i]` records
/// what happens to it.
pub open spec fn is_region<S, P, R, B, D, G, T, E, H, C>(
    ops: Arithmetic<G, T, E, H, C>,
    pre_post_eq: bool,
    frames: Seq<P>,
    rate: R,
    before: Seq<S>,
    after: Seq<S>,
    bands: Seq<Seq<B>>,
    dcs: Seq<D>,
    traces: Seq<SampleTrace<S, B>>,
) -> bool where
    G: Fn(S, &P) -> S,
    T: Fn(&B, usize, &R, &P) -> B,
    E: Fn(&B, S) -> (B, S),
    H: Fn(S, &P) -> S,
    C: Fn(&D, S) -> (D, S),
 {
    &&& frames.len() == before.len()
    &&& after.len() == before.len()
    &&& bands.len() == before.len() + 1
    &&& dcs.len() == before.len() + 1
    &&& traces.len() == before.len()
    &&& forall|i: int|
        0 <= i < before.len() ==> is_sample(
            ops,
            pre_post_eq,
            frames[i],
            rate,
            bands[i],
            dcs[i],
            before[i],
            bands[i + 1],
            dcs[i + 1],
            after[i],
            #[trigger] traces[i],
        )
}

/// Sends one sample through the chain.
pub fn process_sample<S, P, R, B, D, G, T, E, H, C>(
    eq: &mut ParametricEQ<R, B>,
    dc: &mut D,
    x: S,
    frame: &P,
    pre_post_eq: bool,
    ops: &Arithmetic<G, T, E, H, C>,
) -> (y: S) where
    G: Fn(S, &P) -> S,
    T: Fn(&B, usize, &R, &P) -> B,
    E: Fn(&B, S) -> (B, S),
    H: Fn(S, &P) -> S,
    C: Fn(&D, S) -> (D, S),

    requires
        is_total::<S, P, R, B, D, G, T, E, H, C>(*ops),
    ensures
        final(eq).rate() == old(eq).rate(),
        exists|trace: SampleTrace<S, B>|
            #[trigger] is_sample(
                *ops,
                pre_post_eq,
                *frame,
                old(eq).rate(),
                old(eq)@,
                *old(dc),
                x,
                final(eq)@,
                *final(dc),
                y,
                trace,
            ),
{
    let ghost bands = eq@;
    let ghost rate = eq.rate();
    let ghost dc_before = *dc;
    let count = eq.len();
    let mut k: usize = 0;
    while k < count
        invariant
            k <= count,
            count == bands.len(),
            eq@.len() == count,
            eq.rate() == rate,
            is_total::<S, P, R, B, D, G, T, E, H, C>(*ops),
            forall|j: int|
                0 <= j < k ==> call_ensures(
                    ops.tune,
                    (&bands[j], j as usize, &rate, frame),
                    #[trigger] eq@[j],
                ),
            forall|j: int| k <= j < count ==> #[trigger] eq@[j] == bands[j],
        decreases count - k,
    {
        let tuner = |band: &B, at: &R| -> (tuned: B)
            ensures
                call_ensures(ops.tune, (band, k, at, frame), tuned),
            { (ops.tune)(band, k, at, frame) };
        let _ = eq.set_band_params(k, tuner);
        k = k + 1;
    }
    let ghost tuned = eq@;
    let gained = (ops.gain)(x, frame);
    let ghost gained_copy = gained;
    if pre_post_eq {
        let equalized = eq.process(gained, &ops.band);
        let ghost signal = choose|signal: Seq<S>|
            #[trigger] is_cascade(ops.band, tuned, eq@, signal) && signal[0] == gained_copy
                && signal.last() == equalized;
        let shaped = (ops.shape)(equalized, frame);
        let ghost shaped_copy = shaped;
        let (next, y) = (ops.block_dc)(&*dc, shaped);
        *dc = next;
        proof {
            let trace = SampleTrace { tuned, gained: gained_copy, shaped: shaped_copy, signal };
            assert(is_sample(
                *ops,
                pre_post_eq,
                *frame,
                rate,
                bands,
                dc_before,
                x,
                eq@,
                *dc,
                y,
                trace,
            ));
        }
        y
    } else {
        let shaped = (ops.shape)(gained, frame);
        let ghost shaped_copy = shaped;
        let (next, blocked) = (ops.block_dc)(&*dc, shaped);
        *dc = next;
        let ghost blocked_copy = blocked;
        let y = eq.process(blocked, &ops.band);
        proof {
            let signal = choose|signal: Seq<S>|
                #[trigger] is_cascade(ops.band, tuned, eq@, signal) && signal[0] == blocked_copy
                    && signal.last() == y;
            let trace = SampleTrace { tuned, gained: gained_copy, shaped: shaped_copy, signal };
            assert(is_sample(
                *ops,
                pre_post_eq,
                *frame,
                rate,
                bands,
                dc_before,
                x,
                eq@,
                *dc,
                y,
                trace,
            ));
        }
        y
    }
}

/// Sends the samples of `region` through the chain, one after the other, each
/// with its own frame of `frames`. Returns whether that was done: where
/// `frames` has not one frame for each sample, nothing is changed.
pub fn process_region<S: Copy, P, R, B, D, G, T, E, H, C>(
    eq: &mut ParametricEQ<R, B>,
    dc: &mut D,
    region: &mut [S],
    frames: &[P],
    pre_post_eq: bool,
    ops: &Arithmetic<G, T, E, H, C>,
) -> (done: bool) where
    G: Fn(S, &P) -> S,
    T: Fn(&B, usize, &R, &P) -> B,
    E: Fn(&B, S) -> (B, S),
    H: Fn(S, &P) -> S,
    C: Fn(&D, S) -> (D, S),

    requires
        is_total::<S, P, R, B, D, G, T, E, H, C>(*ops),
    ensures
        done == (frames@.len() == old(region)@.len()),
        final(eq).rate() == old(eq).rate(),
        final(region)@.len() == old(region)@.len(),
        !done ==> final(eq)@ == old(eq)@ && *final(dc) == *old(dc) && final(region)@ == old(
            region,
        )@,
        done ==> exists|bands: Seq<Seq<B>>, dcs: Seq<D>, traces: Seq<SampleTrace<S, B>>|
            #[trigger] is_region(
                *ops,
                pre_post_eq,
                frames@,
                old(eq).rate(),
                old(region)@,
                final(region)@,
                bands,
                dcs,
                traces,
            ) && bands[0] == old(eq)@ && bands.last() == final(eq)@ && dcs[0] == *old(dc)
                && dcs.last() == *final(dc),
{
    let len = region.len();
    if frames.len() != len {
        return false;
    }
    let ghost before = region@;
    let ghost rate = eq.rate();
    let ghost mut bands: Seq<Seq<B>> = seq![eq@];
    let ghost mut dcs: Seq<D> = seq![*dc];
    let ghost mut traces: Seq<SampleTrace<S, B>> = Seq::empty();
    let mut i: usize = 0;
    while i < len
        invariant
            i <= len,
            len == before.len(),
            frames@.len() == len,
            region@.len() == len,
            eq.rate() == rate,
            is_total::<S, P, R, B, D, G, T, E, H, C>(*ops),
            bands.len() == i + 1,
            dcs.len() == i + 1,
            traces.len() == i,
            bands[0] == old(eq)@,
            dcs[0] == *old(dc),
            bands[i as int] == eq@,
            dcs[i as int] == *dc,
            forall|j: int| i <= j < len ==> region@[j] == before[j],
            forall|j: int|
                0 <= j < i ==> is_sample(
                    *ops,
                    pre_post_eq,
                    frames@[j],
                    rate,
                    bands[j],
                    dcs[j],
                    before[j],
                    bands[j + 1],
                    dcs[j + 1],
                    region@[j],
                    #[trigger] traces[j],
                ),
        decreases len - i,
    {
        let ghost bands_so_far = bands;
        let ghost dcs_so_far = dcs;
        let ghost traces_so_far = traces;
        let ghost written = region@;
        let y = process_sample(eq, dc, region[i], &frames[i], pre_post_eq, ops);
        region[i] = y;
        proof {
            let trace = choose|trace: SampleTrace<S, B>|
                #[trigger] is_sample(
                    *ops,
                    pre_post_eq,
                    frames@[i as int],
                    rate,
                    bands_so_far[i as int],
                    dcs_so_far[i as int],
                    before[i as int],
                    eq@,
                    *dc,
                    y,
                    trace,
                );
            bands = bands_so_far.push(eq@);
            dcs = dcs_so_far.push(*dc);
            traces = traces_so_far.push(trace);
            assert forall|j: int| 0 <= j < i + 1 implies is_sample(
                *ops,
                pre_post_eq,
                frames@[j],
                rate,
                bands[j],
                dcs[j],
                before[j],
                bands[j + 1],
                dcs[j + 1],
                region@[j],
                #[trigger] traces[j],
            ) by {
                if j < i {
                    assert(traces[j] == traces_so_far[j]);
                    assert(bands[j] == bands_so_far[j]);
                    assert(bands[j + 1] == bands_so_far[j + 1]);
                    assert(dcs[j] == dcs_so_far[j]);
                    assert(dcs[j + 1] == dcs_so_far[j + 1]);
                    assert(region@[j] == written[j]);
                }
            }
        }
        i = i + 1;
    }
    proof {
        assert(is_region(*ops, pre_post_eq, frames@, rate, before, region@, bands, dcs, traces));
    }
    true
}

/// One channel of the signal chain.
pub struct Channel<S, R, B, D> {
    /// The oversampler of the channel.
    pub oversampler: Oversampler<S>,
    /// The equalizer of the channel.
    pub eq: ParametricEQ<R, B>,
    /// The DC blocker of the channel.
    pub dc_blocker: D,
}

/// Whether `after` is the channel `before` tuned anew for `sample_rate`: the
/// equalizer has stored the rate, every band is what `tune_band` makes of it
/// and of the rate, and the DC blocker is what `tune_dc` makes of it and of
/// the rate. The oversampler is as it was.
pub open spec fn is_retuned<S, R, B, D, F: Fn(&B, &R) -> B, K: Fn(&D, &R) -> D>(
    tune_band: F,
    tune_dc: K,
    sample_rate: R,
    before: Channel<S, R, B, D>,
    after: Channel<S, R, B, D>,
) -> bool {
    &&& after.oversampler == before.oversampler
    &&& after.eq.rate() == sample_rate
    &&& after.eq@.len() == before.eq@.len()
    &&& forall|i: int|
        0 <= i < before.eq@.len() ==> call_ensures(
            tune_band,
            (&before.eq@[i], &sample_rate),
            #[trigger] after.eq@[i],
        )
    &&& call_ensures(tune_dc, (&before.dc_blocker, &sample_rate), after.dc_blocker)
}

/// Whether `after` is the channel `before` with `zero` in place of everything
/// its oversampler remembers. The equalizer and the DC blocker are as they
/// were.
pub open spec fn is_silenced<S, R, B, D>(
    before: Channel<S, R, B, D>,
    after: Channel<S, R, B, D>,
    zero: S,
) -> bool {
    &&& after.eq == before.eq
    &&& after.dc_blocker == before.dc_blocker
    &&& after.oversampler.spec_max_block_size() == before.oversampler.spec_max_block_size()
    &&& after.oversampler.spec_max_factor() == before.oversampler.spec_max_factor()
    &&& after.oversampler@ == Seq::new(
        before.oversampler@.len(),
        |s: int| silenced(before.oversampler@[s], zero),
    )
}

impl<S: Copy, R, B, D> Channel<S, R, B, D> {
    /// The stream starts anew: the oversampler forgets what it remembers,
    /// which becomes `zero`.
    pub fn reset(&mut self, zero: S)
        ensures
            is_silenced(*old(self), *final(self), zero),
    {
        self.oversampler.reset(zero);
    }

    /// Whether the channel takes a block of `block_len` samples at `factor`
    /// with `frames` frames: the oversampler takes the block, and there is
    /// one frame for each of its samples at the raised rate.
    pub open spec fn accepts(&self, block_len: nat, factor: nat, frames: nat) -> bool {
        self.oversampler.accepts(block_len, factor) && frames == upsampled(block_len, factor)
    }

    /// A new sample rate: the equalizer stores it and every band is tuned
    /// anew for it by `tune_band`, and the DC blocker by `tune_dc`.
    pub fn set_sample_rate<F: Fn(&B, &R) -> B, K: Fn(&D, &R) -> D>(
        &mut self,
        sample_rate: R,
        tune_band: &F,
        tune_dc: &K,
    )
        requires
            forall|band: B, rate: R| call_requires(*tune_band, (&band, &rate)),
            forall|dc: D, rate: R| call_requires(*tune_dc, (&dc, &rate)),
        ensures
            is_retuned(*tune_band, *tune_dc, sample_rate, *old(self), *final(self)),
    {
        let tuned = tune_dc(&self.dc_blocker, &sample_rate);
        self.dc_blocker = tuned;
        self.eq.set_sample_rate(sample_rate, tune_band);
    }

    /// Runs the channel over one block: the oversampler raises the rate of
    /// `block` by `factor`, the samples at the raised rate go through the
    /// chain one after the other, each with its own frame of `frames`, and
    /// the oversampler lowers the rate again, back into `block`. Returns
    /// whether the block was taken; where it was not, nothing is changed.
    pub fn process_block<P, G, T, E, H, C, U, L>(
        &mut self,
        block: &mut [S],
        factor: usize,
        pre_post_eq: bool,
        frames: &[P],
        zero: S,
        ops: &Arithmetic<G, T, E, H, C>,
        raise_kernel: &U,
        lower_kernel: &L,
    ) -> (done: bool) where
        G: Fn(S, &P) -> S,
        T: Fn(&B, usize, &R, &P) -> B,
        E: Fn(&B, S) -> (B, S),
        H: Fn(S, &P) -> S,
        C: Fn(&D, S) -> (D, S),
        U: Fn(&DelayLine<S>) -> S,
        L: Fn(&DelayLine<S>) -> S,

        requires
            is_total::<S, P, R, B, D, G, T, E, H, C>(*ops),
            forall|line: DelayLine<S>| call_requires(*raise_kernel, (&line,)),
            forall|line: DelayLine<S>| call_requires(*lower_kernel, (&line,)),
        ensures
            done == old(self).accepts(old(block)@.len(), factor as nat, frames@.len()),
            final(self).oversampler.spec_max_block_size() == old(
                self,
            ).oversampler.spec_max_block_size(),
            final(self).oversampler.spec_max_factor() == old(self).oversampler.spec_max_factor(),
            final(self).eq.rate() == old(self).eq.rate(),
            final(block)@.len() == old(block)@.len(),
            !done ==> final(self).oversampler@ == old(self).oversampler@ && final(self).eq@ == old(
                self,
            ).eq@ && final(self).dc_blocker == old(self).dc_blocker && final(block)@ == old(
                block,
            )@,
            done ==> exists|
                mid: Seq<StageHistory<S>>,
                up: Seq<Seq<S>>,
                down: Seq<Seq<S>>,
                bands: Seq<Seq<B>>,
                dcs: Seq<D>,
                traces: Seq<SampleTrace<S, B>>,
            |
                #[trigger] is_way_up(
                    *raise_kernel,
                    zero,
                    old(self).oversampler@,
                    mid,
                    factor as nat,
                    old(block)@,
                    up,
                ) && #[trigger] is_region(
                    *ops,
                    pre_post_eq,
                    frames@,
                    old(self).eq.rate(),
                    up[factor as int],
                    down[factor as int],
                    bands,
                    dcs,
                    traces,
                ) && #[trigger] is_way_down(
                    *lower_kernel,
                    mid,
                    final(self).oversampler@,
                    factor as nat,
                    final(block)@,
                    down,
                ) && bands[0] == old(self).eq@ && bands.last() == final(self).eq@ && dcs[0] == old(
                    self,
                ).dc_blocker && dcs.last() == final(self).dc_blocker,
    {
        match self.oversampler.upsampled_len(block.len(), factor) {
            Some(needed) => {
                if frames.len() != needed {
                    return false;
                }
            },
            None => {
                return false;
            },
        }
        let ghost before = self.oversampler@;
        let ghost input = block@;
        let mut region = match self.oversampler.raise_block(block, factor, zero, raise_kernel) {
            Some(region) => region,
            None => {
                return false;
            },
        };
        let ghost mid = self.oversampler@;
        let ghost up = choose|up: Seq<Seq<S>>|
            #[trigger] is_way_up(*raise_kernel, zero, before, mid, factor as nat, input, up)
                && region@ == up[factor as int];
        proof {
            lemma_up_lengths(*raise_kernel, zero, before, mid, factor as nat, input, up, factor as nat);
        }
        let worked = process_region(
            &mut self.eq,
            &mut self.dc_blocker,
            region.as_mut_slice(),
            frames,
            pre_post_eq,
            ops,
        );
        assert(worked);
        let done = self.oversampler.lower_block(region, block, factor, zero, lower_kernel);
        assert(done);
        done
    }
}

/// Whether no step changes the sample it is given.
pub open spec fn is_transparent<S, P, R, B, D, G, T, E, H, C>(
    ops: Arithmetic<G, T, E, H, C>,
) -> bool where
    G: Fn(S, &P) -> S,
    T: Fn(&B, usize, &R, &P) -> B,
    E: Fn(&B, S) -> (B, S),
    H: Fn(S, &P) -> S,
    C: Fn(&D, S) -> (D, S),
 {
    &&& forall|x: S, frame: P, y: S| #[trigger] call_ensures(ops.gain, (x, &frame), y) ==> y == x
    &&& forall|band: B, x: S, after: (B, S)|
        #[trigger] call_ensures(ops.band, (&band, x), after) ==> after.1 == x
    &&& forall|x: S, frame: P, y: S| #[trigger] call_ensures(ops.shape, (x, &frame), y) ==> y == x
    &&& forall|dc: D, x: S, after: (D, S)|
        #[trigger] call_ensures(ops.block_dc, (&dc, x), after) ==> after.1 == x
}

/// Through bands that do not change a sample, the sample is the same at every
/// place of the cascade.
proof fn lemma_transparent_cascade<B, S, E: Fn(&B, S) -> (B, S)>(
    step: E,
    before: Seq<B>,
    after: Seq<B>,
    signal: Seq<S>,
    upto: int,
)
    requires
        is_cascade(step, before, after, signal),
        forall|band: B, x: S, after: (B, S)|
            #[trigger] call_ensures(step, (&band, x), after) ==> after.1 == x,
        0 <= upto <= before.len(),
    ensures
        signal[upto] == signal[0],
    decreases upto,
{
    if upto > 0 {
        lemma_transparent_cascade(step, before, after, signal, upto - 1);
        assert(call_ensures(
            step,
            (&before[upto - 1], signal[upto - 1]),
            (after[upto - 1], signal[upto - 1 + 1]),
        ));
    }
}

/// A chain whose steps change no sample gives each sample back as it was.
pub proof fn lemma_transparent_region<S, P, R, B, D, G, T, E, H, C>(
    ops: Arithmetic<G, T, E, H, C>,
    pre_post_eq: bool,
    frames: Seq<P>,
    rate: R,
    before: Seq<S>,
    after: Seq<S>,
    bands: Seq<Seq<B>>,
    dcs: Seq<D>,
    traces: Seq<SampleTrace<S, B>>,
) where
    G: Fn(S, &P) -> S,
    T: Fn(&B, usize, &R, &P) -> B,
    E: Fn(&B, S) -> (B, S),
    H: Fn(S, &P) -> S,
    C: Fn(&D, S) -> (D, S),

    requires
        is_transparent::<S, P, R, B, D, G, T, E, H, C>(ops),
        is_region(ops, pre_post_eq, frames, rate, before, after, bands, dcs, traces),
    ensures
        after == before,
{
    assert forall|i: int| 0 <= i < before.len() implies after[i] == before[i] by {
        let trace = traces[i];
        assert(is_sample(
            ops,
            pre_post_eq,
            frames[i],
            rate,
            bands[i],
            dcs[i],
            before[i],
            bands[i + 1],
            dcs[i + 1],
            after[i],
            trace,
        ));
        lemma_transparent_cascade(
            ops.band,
            trace.tuned,
            bands[i + 1],
            trace.signal,
            trace.tuned.len() as int,
        );
    }
    assert(after =~= before);
}

/// A channel whose steps change no sample and whose kernels do nothing but
/// delay gives a block back as it was, later by `spec_latency(factor)`
/// samples, and after a reset with `zero` for that many samples at its
/// start.
pub proof fn lemma_transparent_block_is_delay<S, P, R, B, D, G, T, E, H, C, U, L>(
    ops: Arithmetic<G, T, E, H, C>,
    raise_kernel: U,
    lower_kernel: L,
    zero: S,
    pre_post_eq: bool,
    frames: Seq<P>,
    rate: R,
    factor: nat,
    before: Seq<StageHistory<S>>,
    mid: Seq<StageHistory<S>>,
    after: Seq<StageHistory<S>>,
    input: Seq<S>,
    output: Seq<S>,
    up: Seq<Seq<S>>,
    down: Seq<Seq<S>>,
    bands: Seq<Seq<B>>,
    dcs: Seq<D>,
    traces: Seq<SampleTrace<S, B>>,
) where
    G: Fn(S, &P) -> S,
    T: Fn(&B, usize, &R, &P) -> B,
    E: Fn(&B, S) -> (B, S),
    H: Fn(S, &P) -> S,
    C: Fn(&D, S) -> (D, S),
    U: Fn(&DelayLine<S>) -> S,
    L: Fn(&DelayLine<S>) -> S,

    requires
        is_transparent::<S, P, R, B, D, G, T, E, H, C>(ops),
        is_centre_tap(raise_kernel),
        is_centre_tap(lower_kernel),
        are_sized(before, factor),
        is_way_up(raise_kernel, zero, before, mid, factor, input, up),
        is_region(
            ops,
            pre_post_eq,
            frames,
            rate,
            up[factor as int],
            down[factor as int],
            bands,
            dcs,
            traces,
        ),
        is_way_down(lower_kernel, mid, after, factor, output, down),
    ensures
        is_delayed(input, output, spec_latency(factor)),
        are_silent(before, factor, zero) ==> starts_silent(output, spec_latency(factor), zero),
{
    lemma_transparent_region(
        ops,
        pre_post_eq,
        frames,
        rate,
        up[factor as int],
        down[factor as int],
        bands,
        dcs,
        traces,
    );
    lemma_round_trip_is_delay(
        raise_kernel,
        lower_kernel,
        zero,
        before,
        mid,
        after,
        factor,
        input,
        output,
        up,
        down,
    );
}

} // verus!
