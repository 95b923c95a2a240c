//! The signal chain: its channels, and what a block needs before its samples
//! are touched. The filter coefficients are derived anew when the sample rate
//! or the oversampling factor has changed since the block before, and the
//! host is told the latency when the factor has.

use vstd::prelude::*;
use vstd::arithmetic::power2::{pow2, lemma2_to64};
use crate::channel::{Channel, is_retuned, is_silenced};
use crate::oversampling::{
    latency,
    lemma_upsampled_grows,
    oversampling_factor_to_times,
    spec_latency,
    upsampled,
};

verus! {

/// The longest block, in base-rate samples, that the chain works on at once.
pub const MAX_BLOCK_SIZE: usize = 32;

/// The highest oversampling factor.
pub const MAX_OVERSAMPLING_FACTOR: usize = 4;

/// The oversampling factor a chain starts with.
pub const DEFAULT_OVERSAMPLING_FACTOR: usize = 1;

/// The rate multiplier at the highest factor.
pub const MAX_OVERSAMPLING_TIMES: usize = 16;

/// The longest block at the raised rate: the length of each buffer that holds
/// one value per oversampled sample.
pub const MAX_OVERSAMPLED_BLOCK_SIZE: usize = MAX_BLOCK_SIZE * MAX_OVERSAMPLING_TIMES;

/// What the chain remembers between blocks.
#[derive(Clone, Copy, Debug, PartialEq, Eq, Structural)]
pub struct ChainState {
    /// The factor for whose rate the filter coefficients stand, or `None`
    /// when they stand for no current rate.
    pub tuned: Option<usize>,
    /// The factor whose latency the host was last told, if it was told one.
    pub reported: Option<usize>,
}

/// What a block needs before its samples are worked on.
#[derive(Clone, Copy, Debug, PartialEq, Eq, Structural)]
pub struct BlockPlan {
    /// The rate multiplier.
    pub times: usize,
    /// The length of the block at the raised rate: the number of values to
    /// take from each parameter curve.
    pub upsampled_len: usize,
    /// Whether the filter coefficients must be derived anew, for the base
    /// rate times `times`.
    pub retune: bool,
    /// The latency to tell the host, if it has changed.
    pub latency: Option<u32>,
}

/// Whether the chain works on a block of `block_len` samples at `factor`.
pub open spec fn block_accepted(factor: usize, block_len: usize) -> bool {
    factor <= MAX_OVERSAMPLING_FACTOR && block_len <= MAX_BLOCK_SIZE
}

/// The plan for a block of `block_len` samples at `factor`, for a chain in
/// `state`.
pub open spec fn plan_for(state: ChainState, factor: usize, block_len: usize) -> Option<BlockPlan> {
    if block_accepted(factor, block_len) {
        Some(
            BlockPlan {
                times: pow2(factor as nat) as usize,
                upsampled_len: upsampled(block_len as nat, factor as nat) as usize,
                retune: state.tuned != Some(factor),
                latency: if state.reported != Some(factor) {
                    Some(spec_latency(factor as nat) as u32)
                } else {
                    None
                },
            },
        )
    } else {
        None
    }
}

/// The state of a chain that was in `state` and has planned a block of
/// `block_len` samples at `factor`.
pub open spec fn state_after_block(state: ChainState, factor: usize, block_len: usize) -> ChainState {
    if block_accepted(factor, block_len) {
        ChainState { tuned: Some(factor), reported: Some(factor) }
    } else {
        state
    }
}

impl ChainState {
    /// A chain that has tuned nothing and reported nothing yet.
    pub fn new() -> (state: Self)
        ensures
            state == (ChainState { tuned: None, reported: None }),
    {
        ChainState { tuned: None, reported: None }
    }

    /// The host has named a sample rate: the coefficients stand for no
    /// current rate any more.
    pub fn sample_rate_changed(&mut self)
        ensures
            *final(self) == (ChainState { tuned: None, reported: old(self).reported }),
    {
        self.tuned = None;
    }

    /// The chain starts at `factor`: the coefficients are yet to be derived,
    /// and the latency at `factor` is returned for the host. A factor above
    /// `MAX_OVERSAMPLING_FACTOR` has no latency, and none counts as reported.
    pub fn initialize(&mut self, factor: usize) -> (samples: Option<u32>)
        ensures
            factor <= MAX_OVERSAMPLING_FACTOR ==> samples == Some(spec_latency(factor as nat) as u32)
                && *final(self) == (ChainState { tuned: None, reported: Some(factor) }),
            factor > MAX_OVERSAMPLING_FACTOR ==> samples is None && *final(self) == (ChainState {
                tuned: None,
                reported: old(self).reported,
            }),
    {
        self.tuned = None;
        if factor > MAX_OVERSAMPLING_FACTOR {
            return None;
        }
        self.reported = Some(factor);
        Some(latency(factor))
    }

    /// Plans a block of `block_len` base-rate samples at `factor`, and
    /// remembers that the coefficients and the reported latency now stand for
    /// `factor`. A factor above `MAX_OVERSAMPLING_FACTOR` or a block longer
    /// than `MAX_BLOCK_SIZE` gets no plan and leaves the chain as it was.
    pub fn plan_block(&mut self, factor: usize, block_len: usize) -> (plan: Option<BlockPlan>)
        ensures
            plan == plan_for(*old(self), factor, block_len),
            *final(self) == state_after_block(*old(self), factor, block_len),
    {
        if factor > MAX_OVERSAMPLING_FACTOR || block_len > MAX_BLOCK_SIZE {
            return None;
        }
        proof {
            lemma_block_fits(factor, block_len);
        }
        let times = oversampling_factor_to_times(factor);
        let retune = match self.tuned {
            Some(tuned) => tuned != factor,
            None => true,
        };
        let report = match self.reported {
            Some(reported) => reported != factor,
            None => true,
        };
        let samples = if report {
            Some(latency(factor))
        } else {
            None
        };
        self.tuned = Some(factor);
        self.reported = Some(factor);
        Some(BlockPlan { times, upsampled_len: block_len * times, retune, latency: samples })
    }
}

/// `MAX_OVERSAMPLING_TIMES` is the multiplier of `MAX_OVERSAMPLING_FACTOR`,
/// and a block that the chain accepts is at the raised rate no longer than
/// `MAX_OVERSAMPLED_BLOCK_SIZE`: a buffer of that length holds one value for
/// each of its samples.
pub proof fn lemma_block_fits(factor: usize, block_len: usize)
    requires
        block_accepted(factor, block_len),
    ensures
        pow2(MAX_OVERSAMPLING_FACTOR as nat) == MAX_OVERSAMPLING_TIMES,
        pow2(factor as nat) <= MAX_OVERSAMPLING_TIMES,
        upsampled(block_len as nat, factor as nat) <= MAX_OVERSAMPLED_BLOCK_SIZE,
{
    lemma2_to64();
    lemma_upsampled_grows(
        block_len as nat,
        factor as nat,
        MAX_BLOCK_SIZE as nat,
        MAX_OVERSAMPLING_FACTOR as nat,
    );
}

/// A block at the factor of the block before it, with no change of the sample
/// rate between the two, asks for nothing: the coefficients stay and the host
/// is told nothing.
pub proof fn lemma_steady_block_asks_nothing(
    state: ChainState,
    factor: usize,
    first_len: usize,
    second_len: usize,
)
    requires
        block_accepted(factor, first_len),
        block_accepted(factor, second_len),
    ensures
        plan_for(state_after_block(state, factor, first_len), factor, second_len) matches Some(plan)
            && !plan.retune && plan.latency is None,
{
}

/// A block at another factor than the block before it has the coefficients
/// derived anew and the host told the latency of the new factor.
pub proof fn lemma_factor_change_is_acted_on(
    state: ChainState,
    factor: usize,
    first_len: usize,
    next_factor: usize,
    second_len: usize,
)
    requires
        block_accepted(factor, first_len),
        block_accepted(next_factor, second_len),
        next_factor != factor,
    ensures
        plan_for(state_after_block(state, factor, first_len), next_factor, second_len) matches Some(
            plan,
        ) && plan.retune && plan.latency == Some(spec_latency(next_factor as nat) as u32),
{
}

/// The first block after the host has named a sample rate has the
/// coefficients derived anew, whatever its factor.
pub proof fn lemma_rate_change_retunes(state: ChainState, factor: usize, block_len: usize)
    requires
        block_accepted(factor, block_len),
        state.tuned is None,
    ensures
        plan_for(state, factor, block_len) matches Some(plan) && plan.retune,
{
}

/// The signal chain of an effect: one channel for each audio channel, the
/// sample rate of the host, and what is remembered between blocks.
pub struct SignalChain<S, R, B, D> {
    /// What is remembered between blocks.
    pub state: ChainState,
    /// The sample rate of the host.
    pub sample_rate: R,
    /// The channels, each with its own oversampler, equalizer and DC blocker.
    pub channels: Vec<Channel<S, R, B, D>>,
}

impl<S: Copy, R: Copy, B, D> SignalChain<S, R, B, D> {
    /// A chain of `channels` at the sample rate `sample_rate`, which has
    /// tuned nothing and reported nothing yet.
    pub fn new(sample_rate: R, channels: Vec<Channel<S, R, B, D>>) -> (chain: Self)
        ensures
            chain.state == (ChainState { tuned: None, reported: None }),
            chain.sample_rate == sample_rate,
            chain.channels == channels,
    {
        SignalChain { state: ChainState::new(), sample_rate, channels }
    }

    /// The host has named a sample rate: it is stored, and the coefficients
    /// stand for no current rate any more.
    pub fn set_sample_rate(&mut self, sample_rate: R)
        ensures
            final(self).state == (ChainState { tuned: None, reported: old(self).state.reported }),
            final(self).sample_rate == sample_rate,
            final(self).channels == old(self).channels,
    {
        self.sample_rate = sample_rate;
        self.state.sample_rate_changed();
    }

    /// The stream starts anew: every oversampler forgets what it remembers,
    /// which becomes `zero`.
    pub fn reset(&mut self, zero: S)
        ensures
            final(self).state == old(self).state,
            final(self).sample_rate == old(self).sample_rate,
            final(self).channels@.len() == old(self).channels@.len(),
            forall|c: int|
                0 <= c < old(self).channels@.len() ==> is_silenced(
                    old(self).channels@[c],
                    #[trigger] final(self).channels@[c],
                    zero,
                ),
    {
        let count = self.channels.len();
        let mut c: usize = 0;
        while c < count
            invariant
                c <= count,
                count == old(self).channels@.len(),
                self.channels@.len() == count,
                self.state == old(self).state,
                self.sample_rate == old(self).sample_rate,
                forall|k: int| c <= k < count ==> #[trigger] self.channels@[k] == old(self).channels@[k],
                forall|k: int|
                    0 <= k < c ==> is_silenced(
                        old(self).channels@[k],
                        #[trigger] self.channels@[k],
                        zero,
                    ),
            decreases count - c,
        {
            self.channels[c].reset(zero);
            c = c + 1;
        }
    }

    /// Begins a block of `block_len` base-rate samples at `factor`: plans it
    /// as `ChainState::plan_block` does, and where the plan asks for the
    /// coefficients to be derived anew, tunes every channel for the rate that
    /// `scale` makes of the host's sample rate and the rate multiplier. A
    /// block that gets no plan changes nothing.
    pub fn begin_block<M, F, K>(
        &mut self,
        factor: usize,
        block_len: usize,
        scale: &M,
        tune_band: &F,
        tune_dc: &K,
    ) -> (plan: Option<BlockPlan>) where
        M: Fn(&R, usize) -> R,
        F: Fn(&B, &R) -> B,
        K: Fn(&D, &R) -> D,

        requires
            forall|rate: R, times: usize| call_requires(*scale, (&rate, times)),
            forall|band: B, rate: R| call_requires(*tune_band, (&band, &rate)),
            forall|dc: D, rate: R| call_requires(*tune_dc, (&dc, &rate)),
        ensures
            plan == plan_for(old(self).state, factor, block_len),
            final(self).state == state_after_block(old(self).state, factor, block_len),
            final(self).sample_rate == old(self).sample_rate,
            final(self).channels@.len() == old(self).channels@.len(),
            !(plan matches Some(planned) && planned.retune) ==> final(self).channels@ == old(
                self,
            ).channels@,
            plan matches Some(planned) ==> (planned.retune ==> exists|rate: R|
                #[trigger] call_ensures(*scale, (&old(self).sample_rate, planned.times), rate)
                    && forall|c: int|
                    0 <= c < old(self).channels@.len() ==> is_retuned(
                        *tune_band,
                        *tune_dc,
                        rate,
                        old(self).channels@[c],
                        #[trigger] final(self).channels@[c],
                    )),
    {
        let planned = match self.state.plan_block(factor, block_len) {
            Some(planned) => planned,
            None => {
                return None;
            },
        };
        if planned.retune {
            let rate = scale(&self.sample_rate, planned.times);
            let count = self.channels.len();
            let mut c: usize = 0;
            while c < count
                invariant
                    c <= count,
                    count == old(self).channels@.len(),
                    self.channels@.len() == count,
                    self.state == state_after_block(old(self).state, factor, block_len),
                    self.sample_rate == old(self).sample_rate,
                    forall|k: int|
                        c <= k < count ==> #[trigger] self.channels@[k] == old(self).channels@[k],
                    forall|k: int|
                        0 <= k < c ==> is_retuned(
                            *tune_band,
                            *tune_dc,
                            rate,
                            old(self).channels@[k],
                            #[trigger] self.channels@[k],
                        ),
                    forall|band: B, rate: R| call_requires(*tune_band, (&band, &rate)),
                    forall|dc: D, rate: R| call_requires(*tune_dc, (&dc, &rate)),
                decreases count - c,
            {
                self.channels[c].set_sample_rate(rate, tune_band, tune_dc);
                c = c + 1;
            }
        }
        Some(planned)
    }
}

} // verus!
