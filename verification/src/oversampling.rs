//! The geometry of the oversampler: how long a block is at each rate, how
//! much storage each stage needs, and how many samples of delay the
//! interpolation kernel adds.
//!
//! The oversampler is a chain of stages, each of which doubles the rate on
//! the way up and halves it on the way down. A stage filters with a Lanczos
//! kernel of three lobes a side, sampled every half sample: eleven taps, the
//! sixth of them the centre.

use vstd::prelude::*;
use vstd::arithmetic::power2::{
    pow2,
    lemma2_to64,
    lemma_pow2_pos,
    lemma_pow2_strictly_increases,
    lemma_pow2_unfold,
};

verus! {

/// Taps of the kernel.
pub const KERNEL_TAPS: usize = 11;

/// Samples by which one pass through the kernel delays the signal.
pub const KERNEL_DELAY: usize = 5;

/// Samples, at a stage's own rate, by which its two passes through the kernel
/// delay the signal: one pass on the way up, one on the way down.
pub const STAGE_DELAY: usize = 10;

/// The rate multiplier that belongs to an oversampling factor.
pub fn oversampling_factor_to_times(factor: usize) -> (times: usize)
    requires
        factor < usize::BITS,
    ensures
        times == pow2(factor as nat),
{
    proof {
        lemma_times_fit(factor as nat);
        lemma2_to64();
    }
    let mut times: usize = 1;
    let mut done: usize = 0;
    while done < factor
        invariant
            done <= factor,
            times == pow2(done as nat),
            pow2(factor as nat) <= usize::MAX,
        decreases factor - done,
    {
        proof {
            lemma_pow2_unfold((done + 1) as nat);
            if done + 1 < factor {
                lemma_pow2_strictly_increases((done + 1) as nat, factor as nat);
            }
        }
        times = times * 2;
        done = done + 1;
    }
    times
}

/// A multiplier whose factor is below the width of `usize` fits in `usize`.
pub proof fn lemma_times_fit(factor: nat)
    requires
        factor < usize::BITS,
    ensures
        pow2(factor) <= usize::MAX,
{
    lemma2_to64();
    if usize::BITS == 32 {
        lemma_pow2_strictly_increases(factor, 32);
    } else {
        lemma_pow2_strictly_increases(factor, 64);
    }
}

/// The rate at which stage `stage` runs, as a multiple of the base rate.
/// Stages count from 0, and stage 0 runs at twice the base rate.
pub open spec fn stage_times(stage: nat) -> nat {
    pow2(stage + 1)
}

/// The delay of one stage in samples at the base rate: the delay of its two
/// passes through the kernel, rounded up to whole base-rate samples.
pub open spec fn spec_stage_latency(stage: nat) -> nat {
    let times = stage_times(stage) as int;
    ((STAGE_DELAY as int + times - 1) / times) as nat
}

/// Samples, at the stage's own rate, by which a stage holds the signal back
/// on top of its kernels, so that its whole delay is a whole number of
/// base-rate samples.
pub open spec fn spec_stage_padding(stage: nat) -> nat {
    (spec_stage_latency(stage) * stage_times(stage) - STAGE_DELAY as int) as nat
}

/// The delay, in samples at the base rate, of an oversampler that runs its
/// first `factor` stages.
pub open spec fn spec_latency(factor: nat) -> nat
    decreases factor,
{
    if factor == 0 {
        0
    } else {
        spec_latency((factor - 1) as nat) + spec_stage_latency((factor - 1) as nat)
    }
}

/// From stage 3 on a stage runs at more than `STAGE_DELAY` times the base
/// rate, so its delay rounds up to one base-rate sample; the three stages
/// before it delay by 5, 3 and 2 samples.
pub proof fn lemma_stage_latency_values(stage: nat)
    ensures
        spec_stage_latency(stage) == if stage == 0 {
            5nat
        } else if stage == 1 {
            3nat
        } else if stage == 2 {
            2nat
        } else {
            1nat
        },
        1 <= spec_stage_latency(stage) <= 5,
{
    lemma2_to64();
    let times = stage_times(stage) as int;
    if stage >= 3 {
        if stage > 3 {
            lemma_pow2_strictly_increases(4, stage + 1);
        }
        assert((9 + times) / times == 1) by (nonlinear_arith)
            requires
                times >= 16,
        ;
    } else if stage == 2 {
        assert(times == 8);
    }
}

/// A stage's padding is the least that makes its delay a whole number of
/// base-rate samples: it is shorter than one base-rate sample, and with it
/// the stage delays by exactly `spec_stage_latency` base-rate samples.
pub proof fn lemma_stage_delay_is_whole(stage: nat)
    ensures
        spec_stage_padding(stage) < stage_times(stage),
        STAGE_DELAY + spec_stage_padding(stage) == spec_stage_latency(stage) * stage_times(stage),
{
    lemma_pow2_pos(stage + 1);
    let times = stage_times(stage) as int;
    let whole = (9 + times) / times;
    assert(whole * times <= 9 + times < whole * times + times) by (nonlinear_arith)
        requires
            times > 0,
            whole == (9 + times) / times,
    ;
}

/// The delay of the oversampler for each factor from 0 to 4, and beyond.
pub proof fn lemma_latency_values(factor: nat)
    ensures
        spec_latency(factor) == if factor == 0 {
            0nat
        } else if factor == 1 {
            5nat
        } else if factor == 2 {
            8nat
        } else {
            factor + 7
        },
    decreases factor,
{
    if factor > 0 {
        lemma_latency_values((factor - 1) as nat);
        lemma_stage_latency_values((factor - 1) as nat);
    }
}

/// A higher factor never has the shorter delay, and each further stage adds
/// at least one sample.
pub proof fn lemma_latency_grows(lower: nat, higher: nat)
    requires
        lower <= higher,
    ensures
        spec_latency(lower) + (higher - lower) <= spec_latency(higher),
{
    lemma_latency_values(lower);
    lemma_latency_values(higher);
}

/// The delay of one stage in samples at the base rate.
pub fn stage_latency(stage: usize) -> (samples: u32)
    ensures
        samples == spec_stage_latency(stage as nat),
{
    proof {
        lemma_stage_latency_values(stage as nat);
        lemma2_to64();
    }
    if stage >= 3 {
        1
    } else {
        let times = oversampling_factor_to_times(stage + 1);
        ((STAGE_DELAY + times - 1) / times) as u32
    }
}

/// Samples, at the stage's own rate, by which a stage holds the signal back
/// on top of its kernels.
pub fn stage_padding(stage: usize) -> (samples: usize)
    requires
        stage + 1 < usize::BITS,
    ensures
        samples == spec_stage_padding(stage as nat),
{
    proof {
        lemma_stage_latency_values(stage as nat);
        lemma_stage_delay_is_whole(stage as nat);
    }
    let times = oversampling_factor_to_times(stage + 1);
    let whole = stage_latency(stage) as usize;
    whole * times - STAGE_DELAY
}

/// The delay, in samples at the base rate, that the oversampler adds when it
/// runs at `factor`.
pub fn latency(factor: usize) -> (samples: u32)
    requires
        factor < usize::BITS,
    ensures
        samples == spec_latency(factor as nat),
{
    let mut samples: u32 = 0;
    let mut stage: usize = 0;
    while stage < factor
        invariant
            stage <= factor,
            factor < usize::BITS,
            samples == spec_latency(stage as nat),
            samples <= 5 * stage,
        decreases factor - stage,
    {
        proof {
            lemma_stage_latency_values(stage as nat);
        }
        samples = samples + stage_latency(stage);
        stage = stage + 1;
    }
    samples
}

/// The length of a block of `block_len` base-rate samples once its rate was
/// raised by `factor`.
pub open spec fn upsampled(block_len: nat, factor: nat) -> nat {
    block_len * pow2(factor)
}

/// A shorter block at a lower factor is never the longer one upsampled.
pub proof fn lemma_upsampled_grows(block_len: nat, factor: nat, max_len: nat, max_factor: nat)
    requires
        block_len <= max_len,
        factor <= max_factor,
    ensures
        upsampled(block_len, factor) <= upsampled(max_len, max_factor),
{
    if factor < max_factor {
        lemma_pow2_strictly_increases(factor, max_factor);
    }
    let low = pow2(factor) as int;
    let high = pow2(max_factor) as int;
    assert(block_len * low <= max_len * high) by (nonlinear_arith)
        requires
            0 <= block_len <= max_len,
            0 <= low <= high,
    ;
}

/// What an oversampler is built for: the longest block it will be given and
/// the highest factor it will be run at. Every length it hands out fits in
/// `usize`, so storage sized by `stage_capacity` when the oversampler is
/// built holds every block it accepts afterwards.
#[derive(Clone, Copy, Debug)]
pub struct OversamplerLayout {
    max_block_size: usize,
    max_factor: usize,
}

impl OversamplerLayout {
    #[verifier::type_invariant]
    spec fn lengths_fit(self) -> bool {
        &&& self.max_factor < usize::BITS
        &&& upsampled(self.max_block_size as nat, self.max_factor as nat) <= usize::MAX
    }

    /// The longest block, in base-rate samples.
    pub closed spec fn spec_max_block_size(self) -> nat {
        self.max_block_size as nat
    }

    /// The highest factor, which is also the number of stages.
    pub closed spec fn spec_max_factor(self) -> nat {
        self.max_factor as nat
    }

    /// Whether the layout takes a block of `block_len` samples at `factor`.
    pub open spec fn accepts(self, block_len: nat, factor: nat) -> bool {
        block_len <= self.spec_max_block_size() && factor <= self.spec_max_factor()
    }

    /// Whether a layout can be made for these limits: the longest block at
    /// the highest factor must have a length that fits in `usize`.
    pub open spec fn representable(max_block_size: nat, max_factor: nat) -> bool {
        max_factor < usize::BITS && upsampled(max_block_size, max_factor) <= usize::MAX
    }

    /// The layout for blocks of up to `max_block_size` samples at factors up
    /// to `max_factor`, if its lengths fit in `usize`.
    pub fn new(max_block_size: usize, max_factor: usize) -> (made: Option<Self>)
        ensures
            made is Some <==> Self::representable(max_block_size as nat, max_factor as nat),
            made matches Some(layout) ==> layout.spec_max_block_size() == max_block_size
                && layout.spec_max_factor() == max_factor,
    {
        if max_factor >= usize::BITS as usize {
            return None;
        }
        let times = oversampling_factor_to_times(max_factor);
        match max_block_size.checked_mul(times) {
            Some(_) => Some(OversamplerLayout { max_block_size, max_factor }),
            None => None,
        }
    }

    /// The longest block, in base-rate samples.
    pub fn max_block_size(&self) -> (len: usize)
        ensures
            len == self.spec_max_block_size(),
    {
        self.max_block_size
    }

    /// The highest factor, which is also the number of stages. The longest
    /// block at this factor has a length that fits in `usize`.
    pub fn max_factor(&self) -> (factor: usize)
        ensures
            factor == self.spec_max_factor(),
            Self::representable(self.spec_max_block_size(), self.spec_max_factor()),
    {
        proof {
            use_type_invariant(self);
        }
        self.max_factor
    }

    /// The length of a block of `block_len` samples at `factor`, for a block
    /// and a factor that the layout takes.
    pub fn upsampled_len(&self, block_len: usize, factor: usize) -> (len: Option<usize>)
        ensures
            len == if self.accepts(block_len as nat, factor as nat) {
                Some(upsampled(block_len as nat, factor as nat) as usize)
            } else {
                None
            },
            self.accepts(block_len as nat, factor as nat) ==> upsampled(
                block_len as nat,
                factor as nat,
            ) <= usize::MAX,
    {
        proof {
            use_type_invariant(self);
        }
        if block_len > self.max_block_size || factor > self.max_factor {
            return None;
        }
        proof {
            lemma_upsampled_grows(
                block_len as nat,
                factor as nat,
                self.max_block_size as nat,
                self.max_factor as nat,
            );
        }
        let times = oversampling_factor_to_times(factor);
        Some(block_len * times)
    }

    /// The number of samples to set aside for the output of stage `stage`:
    /// the longest block at that stage's rate. `None` for a stage that the
    /// layout has not.
    pub fn stage_capacity(&self, stage: usize) -> (len: Option<usize>)
        ensures
            len == if stage < self.spec_max_factor() {
                Some(upsampled(self.spec_max_block_size(), (stage + 1) as nat) as usize)
            } else {
                None
            },
            stage < self.spec_max_factor() ==> upsampled(
                self.spec_max_block_size(),
                (stage + 1) as nat,
            ) <= usize::MAX,
    {
        proof {
            use_type_invariant(self);
        }
        if stage >= self.max_factor {
            return None;
        }
        proof {
            lemma_upsampled_grows(
                self.max_block_size as nat,
                (stage + 1) as nat,
                self.max_block_size as nat,
                self.max_factor as nat,
            );
        }
        let times = oversampling_factor_to_times(stage + 1);
        Some(self.max_block_size * times)
    }
}

/// Every block that a layout takes fits, at every stage it runs through, in
/// the storage that `stage_capacity` names for that stage.
pub proof fn lemma_capacity_suffices(layout: OversamplerLayout, block_len: nat, factor: nat, stage: nat)
    requires
        layout.accepts(block_len, factor),
        stage < factor,
    ensures
        upsampled(block_len, stage + 1) <= upsampled(layout.spec_max_block_size(), stage + 1),
{
    lemma_upsampled_grows(block_len, stage + 1, layout.spec_max_block_size(), stage + 1);
}

} // verus!
