//! The oversampler of one channel: it raises the rate of a block through its
//! stages, lets the caller work on the block at the raised rate, and lowers
//! the rate again.
//!
//! All storage is set aside when the oversampler is made, for the longest
//! block at the highest factor. What the kernels compute is handed in by the
//! caller; the oversampler fixes which stage works when and on which
//! samples.

use vstd::prelude::*;
use vstd::arithmetic::power2::{pow2, lemma2_to64, lemma_pow2_unfold};
use crate::delay::DelayLine;
use crate::oversampling::{
    OversamplerLayout,
    latency,
    lemma_latency_grows,
    lemma_upsampled_grows,
    spec_latency,
    spec_stage_latency,
    spec_stage_padding,
    upsampled,
};
use crate::stage::{
    OversamplingStage,
    StageHistory,
    is_centre_tap,
    is_delayed,
    is_lowered,
    is_raised,
    is_sized,
    lemma_lower_keeps_sizes,
    lemma_raise_keeps_sizes,
    lemma_stage_delay_at_input_rate,
    lemma_stage_delays,
    silenced,
    silent_history,
    starts_silent,
};

verus! {

/// Whether `up` records the way up of a run at `factor` over stages that
/// remember `before`: `up[0]` is the block that goes in, stage `s` raises
/// `up[s]` to `up[s + 1]` and remembers `after[s]`, and `up[factor]` is the
/// block at the raised rate. The stages from `factor` on are not touched.
pub open spec fn is_way_up<S, U: Fn(&DelayLine<S>) -> S>(
    kernel: U,
    zero: S,
    before: Seq<StageHistory<S>>,
    after: Seq<StageHistory<S>>,
    factor: nat,
    input: Seq<S>,
    up: Seq<Seq<S>>,
) -> bool {
    &&& factor <= before.len()
    &&& after.len() == before.len()
    &&& up.len() == factor + 1
    &&& up[0] == input
    &&& forall|s: int|
        #![trigger after[s]]
        0 <= s < factor ==> is_raised(kernel, zero, before[s], after[s], up[s], up[s + 1])
    &&& forall|s: int| factor <= s < before.len() ==> #[trigger] after[s] == before[s]
}

/// Whether `down` records the way down of a run at `factor` over stages that
/// remember `before`: `down[factor]` is the block at the raised rate, stage
/// `s` lowers `down[s + 1]` to `down[s]` and remembers `after[s]`, and
/// `down[0]` is the block that comes out. The stages from `factor` on are not
/// touched.
pub open spec fn is_way_down<S, D: Fn(&DelayLine<S>) -> S>(
    kernel: D,
    before: Seq<StageHistory<S>>,
    after: Seq<StageHistory<S>>,
    factor: nat,
    output: Seq<S>,
    down: Seq<Seq<S>>,
) -> bool {
    &&& factor <= before.len()
    &&& after.len() == before.len()
    &&& down.len() == factor + 1
    &&& down[0] == output
    &&& forall|s: int|
        #![trigger after[s]]
        0 <= s < factor ==> is_lowered(kernel, before[s], after[s], down[s + 1], down[s])
    &&& forall|s: int| factor <= s < before.len() ==> #[trigger] after[s] == before[s]
}

/// One more stage doubles the length.
proof fn lemma_upsampled_doubles(block_len: nat, factor: nat)
    ensures
        upsampled(block_len, factor + 1) == 2 * upsampled(block_len, factor),
        upsampled(block_len, 0) == block_len,
{
    lemma2_to64();
    lemma_pow2_unfold(factor + 1);
    let times = pow2(factor) as int;
    assert(block_len * (2 * times) == 2 * (block_len * times)) by (nonlinear_arith);
}

/// The oversampler of one channel.
pub struct Oversampler<S> {
    layout: OversamplerLayout,
    stages: Vec<OversamplingStage<S>>,
    buffers: Vec<Vec<S>>,
    flat: Vec<S>,
}

impl<S> Oversampler<S> {
    /// The longest block, in base-rate samples.
    pub closed spec fn spec_max_block_size(&self) -> nat {
        self.layout.spec_max_block_size()
    }

    /// The highest factor, which is also the number of stages. The number of
    /// stages, the number of their buffers and the factor that the lengths
    /// were checked for are the same in every oversampler that `new` makes;
    /// the least of them is taken, so that nothing rests on that.
    pub closed spec fn spec_max_factor(&self) -> nat {
        let stages = self.stages@.len();
        let buffers = self.buffers@.len();
        let planned = self.layout.spec_max_factor();
        if stages <= buffers && stages <= planned {
            stages
        } else if buffers <= planned {
            buffers
        } else {
            planned
        }
    }

    /// Whether the oversampler takes a block of `block_len` samples at
    /// `factor`.
    pub open spec fn accepts(&self, block_len: nat, factor: nat) -> bool {
        block_len <= self.spec_max_block_size() && factor <= self.spec_max_factor()
    }
}

impl<S> View for Oversampler<S> {
    type V = Seq<StageHistory<S>>;

    /// What each stage remembers, stage 0 first.
    closed spec fn view(&self) -> Seq<StageHistory<S>> {
        Seq::new(self.spec_max_factor(), |s: int| self.stages@[s]@)
    }
}

impl<S: Copy> Oversampler<S> {
    /// An oversampler for blocks of up to `max_block_size` samples at factors
    /// up to `max_factor`, with `zero` all through its histories; `None`
    /// where the longest block at the highest factor has a length that does
    /// not fit in `usize`.
    pub fn new(max_block_size: usize, max_factor: usize, zero: S) -> (made: Option<Self>)
        ensures
            made is Some <==> OversamplerLayout::representable(
                max_block_size as nat,
                max_factor as nat,
            ),
            made matches Some(oversampler) ==> oversampler.spec_max_block_size() == max_block_size,
            made matches Some(oversampler) ==> oversampler.spec_max_factor() == max_factor,
            made matches Some(oversampler) ==> oversampler@ == Seq::new(
                max_factor as nat,
                |s: int| silent_history(s as nat, zero),
            ),
    {
        let layout = match OversamplerLayout::new(max_block_size, max_factor) {
            Some(layout) => layout,
            None => {
                return None;
            },
        };
        let depth = layout.max_factor();
        let mut stages: Vec<OversamplingStage<S>> = Vec::with_capacity(depth);
        let mut buffers: Vec<Vec<S>> = Vec::with_capacity(depth);
        let mut s: usize = 0;
        while s < depth
            invariant
                s <= depth,
                depth == layout.spec_max_factor(),
                depth < usize::BITS,
                stages@.len() == s,
                buffers@.len() == s,
                forall|k: int| 0 <= k < s ==> (#[trigger] stages@[k])@ == silent_history(k as nat, zero),
            decreases depth - s,
        {
            let capacity = match layout.stage_capacity(s) {
                Some(capacity) => capacity,
                None => 0,
            };
            stages.push(OversamplingStage::new(s, zero));
            buffers.push(Vec::with_capacity(capacity));
            s = s + 1;
        }
        let flat: Vec<S> = Vec::with_capacity(max_block_size);
        let made = Oversampler { layout, stages, buffers, flat };
        assert(made@ =~= Seq::new(max_factor as nat, |s: int| silent_history(s as nat, zero)));
        Some(made)
    }

    /// The longest block, in base-rate samples.
    pub fn max_block_size(&self) -> (len: usize)
        ensures
            len == self.spec_max_block_size(),
    {
        self.layout.max_block_size()
    }

    /// The highest factor, which is also the number of stages. The longest
    /// block at this factor has a length that fits in `usize`.
    pub fn max_factor(&self) -> (factor: usize)
        ensures
            factor == self.spec_max_factor(),
            OversamplerLayout::representable(self.spec_max_block_size(), self.spec_max_factor()),
    {
        let stages = self.stages.len();
        let buffers = self.buffers.len();
        let planned = self.layout.max_factor();
        let factor = if stages <= buffers && stages <= planned {
            stages
        } else if buffers <= planned {
            buffers
        } else {
            planned
        };
        proof {
            lemma_upsampled_grows(
                self.spec_max_block_size(),
                factor as nat,
                self.spec_max_block_size(),
                planned as nat,
            );
        }
        factor
    }

    /// The delay, in samples at the base rate, that the oversampler adds at
    /// `factor`; `None` for a factor above the highest.
    pub fn latency(&self, factor: usize) -> (samples: Option<u32>)
        ensures
            samples == if factor <= self.spec_max_factor() {
                Some(spec_latency(factor as nat) as u32)
            } else {
                None
            },
            factor <= self.spec_max_factor() ==> spec_latency(factor as nat) <= u32::MAX,
    {
        if factor > self.max_factor() {
            return None;
        }
        Some(latency(factor))
    }

    /// The length of a block of `block_len` samples at `factor`; `None` for a
    /// block or a factor above what the oversampler was made for.
    pub fn upsampled_len(&self, block_len: usize, factor: usize) -> (len: Option<usize>)
        ensures
            len == if self.accepts(block_len as nat, factor as nat) {
                Some(upsampled(block_len as nat, factor as nat) as usize)
            } else {
                None
            },
            self.accepts(block_len as nat, factor as nat) ==> upsampled(
                block_len as nat,
                factor as nat,
            ) <= usize::MAX,
    {
        if factor > self.max_factor() {
            return None;
        }
        self.layout.upsampled_len(block_len, factor)
    }

    /// Overwrites what the stages remember with `zero`.
    pub fn reset(&mut self, zero: S)
        ensures
            final(self).spec_max_block_size() == old(self).spec_max_block_size(),
            final(self).spec_max_factor() == old(self).spec_max_factor(),
            final(self)@ == Seq::new(old(self)@.len(), |s: int| silenced(old(self)@[s], zero)),
    {
        let ghost before = self.stages@;
        let count = self.stages.len();
        let mut s: usize = 0;
        while s < count
            invariant
                s <= count,
                count == before.len(),
                self.stages@.len() == count,
                self.buffers == old(self).buffers,
                self.layout == old(self).layout,
                forall|k: int| 0 <= k < s ==> (#[trigger] self.stages@[k])@ == silenced(before[k]@, zero),
                forall|k: int| s <= k < count ==> #[trigger] self.stages@[k] == before[k],
            decreases count - s,
        {
            self.stages[s].reset(zero);
            s = s + 1;
        }
        assert(self@ =~= Seq::new(old(self)@.len(), |s: int| silenced(old(self)@[s], zero)));
    }

    /// The way up: the first `factor` stages raise the rate of `block` one
    /// after the other. Returns the block at the raised rate, which at factor
    /// 0 is `block` as it is; `None`, and nothing is changed, for a block or
    /// a factor above what the oversampler was made for.
    pub fn raise_block<U: Fn(&DelayLine<S>) -> S>(
        &mut self,
        block: &[S],
        factor: usize,
        zero: S,
        kernel: &U,
    ) -> (raised: Option<Vec<S>>)
        requires
            forall|line: DelayLine<S>| call_requires(*kernel, (&line,)),
        ensures
            raised is Some <==> old(self).accepts(block@.len(), factor as nat),
            final(self).spec_max_block_size() == old(self).spec_max_block_size(),
            final(self).spec_max_factor() == old(self).spec_max_factor(),
            raised is None ==> final(self)@ == old(self)@,
            raised matches Some(region) ==> exists|up: Seq<Seq<S>>|
                #[trigger] is_way_up(
                    *kernel,
                    zero,
                    old(self)@,
                    final(self)@,
                    factor as nat,
                    block@,
                    up,
                ) && region@ == up[factor as int],
    {
        let n = block.len();
        let depth = self.max_factor();
        if n > self.layout.max_block_size() || factor > depth {
            return None;
        }
        let ghost before = self@;
        let ghost input = block@;
        let ghost stages_before = self.stages@;
        proof {
            lemma_upsampled_grows(
                n as nat,
                factor as nat,
                self.spec_max_block_size(),
                depth as nat,
            );
        }
        if factor == 0 {
            let mut region: Vec<S> = Vec::new();
            core::mem::swap(&mut self.flat, &mut region);
            region.clear();
            let mut i: usize = 0;
            while i < n
                invariant
                    i <= n,
                    n == block@.len(),
                    region@ == block@.take(i as int),
                decreases n - i,
            {
                region.push(block[i]);
                proof {
                    assert(block@.take(i + 1) =~= block@.take(i as int).push(block@[i as int]));
                }
                i = i + 1;
            }
            proof {
                assert(block@.take(n as int) =~= block@);
                assert(self@ =~= before);
                assert(is_way_up(*kernel, zero, before, self@, 0, input, seq![input]));
            }
            return Some(region);
        }
        let ghost mut up: Seq<Seq<S>> = seq![input];
        let mut s: usize = 0;
        let mut len: usize = n;
        proof {
            lemma_upsampled_doubles(n as nat, 0);
        }
        while s < factor
            invariant
                s <= factor <= depth,
                depth <= self.stages@.len(),
                depth <= self.buffers@.len(),
                depth == old(self).spec_max_factor(),
                self.stages@.len() == stages_before.len(),
                self.buffers@.len() == old(self).buffers@.len(),
                self.layout == old(self).layout,
                block@ == input,
                input.len() == n,
                len == upsampled(n as nat, s as nat),
                upsampled(n as nat, factor as nat) <= usize::MAX,
                up.len() == s + 1,
                up[0] == input,
                forall|k: int|
                    #![trigger self.stages@[k]]
                    0 <= k < s ==> is_raised(
                        *kernel,
                        zero,
                        stages_before[k]@,
                        self.stages@[k]@,
                        up[k],
                        up[k + 1],
                    ),
                forall|k: int|
                    s <= k < stages_before.len() ==> (#[trigger] self.stages@[k])@
                        == stages_before[k]@,
                s > 0 ==> self.buffers@[s - 1]@ == up[s as int],
                up[s as int].len() == len,
                forall|line: DelayLine<S>| call_requires(*kernel, (&line,)),
            decreases factor - s,
        {
            proof {
                lemma_upsampled_doubles(n as nat, s as nat);
                lemma_upsampled_grows(n as nat, (s + 1) as nat, n as nat, factor as nat);
            }
            let doubled = 2 * len;
            let ghost source = up[s as int];
            let ghost remembered = self.stages@[s as int]@;
            let mut target: Vec<S> = Vec::new();
            core::mem::swap(&mut self.buffers[s], &mut target);
            target.resize(doubled, zero);
            let _ = if s == 0 {
                self.stages[0].raise(block, len, target.as_mut_slice(), zero, kernel)
            } else {
                self.stages[s].raise(
                    self.buffers[s - 1].as_slice(),
                    len,
                    target.as_mut_slice(),
                    zero,
                    kernel,
                )
            };
            proof {
                assert(source.take(len as int) =~= source);
                assert(target@.take(2 * len) =~= target@);
                up = up.push(target@);
                assert(is_raised(
                    *kernel,
                    zero,
                    remembered,
                    self.stages@[s as int]@,
                    up[s as int],
                    up[s + 1],
                ));
            }
            core::mem::swap(&mut self.buffers[s], &mut target);
            len = doubled;
            s = s + 1;
        }
        let mut region: Vec<S> = Vec::new();
        core::mem::swap(&mut self.buffers[factor - 1], &mut region);
        proof {
            assert(is_way_up(*kernel, zero, before, self@, factor as nat, input, up));
        }
        Some(region)
    }

    /// The way down: the first `factor` stages lower the rate of `region`
    /// again, last stage first, into `block`; at factor 0 `block` becomes
    /// `region` as it is. Returns whether that was done; a block or a factor
    /// above what the oversampler was made for, or a region that has not the
    /// length of the block at the raised rate, changes nothing.
    pub fn lower_block<D: Fn(&DelayLine<S>) -> S>(
        &mut self,
        region: Vec<S>,
        block: &mut [S],
        factor: usize,
        zero: S,
        kernel: &D,
    ) -> (done: bool)
        requires
            forall|line: DelayLine<S>| call_requires(*kernel, (&line,)),
        ensures
            done == (old(self).accepts(old(block)@.len(), factor as nat) && region@.len()
                == upsampled(old(block)@.len(), factor as nat)),
            final(self).spec_max_block_size() == old(self).spec_max_block_size(),
            final(self).spec_max_factor() == old(self).spec_max_factor(),
            final(block)@.len() == old(block)@.len(),
            !done ==> final(self)@ == old(self)@ && final(block)@ == old(block)@,
            done ==> exists|down: Seq<Seq<S>>|
                #[trigger] is_way_down(
                    *kernel,
                    old(self)@,
                    final(self)@,
                    factor as nat,
                    final(block)@,
                    down,
                ) && down[factor as int] == region@,
    {
        let n = block.len();
        let depth = self.max_factor();
        let ghost before = self@;
        let ghost stages_before = self.stages@;
        let ghost bottom = region@;
        match self.layout.upsampled_len(n, factor) {
            Some(total) => {
                if factor > depth || region.len() != total {
                    return false;
                }
            },
            None => {
                return false;
            },
        }
        assert(upsampled(n as nat, factor as nat) <= usize::MAX);
        let mut region = region;
        if factor == 0 {
            proof {
                lemma_upsampled_doubles(n as nat, 0);
            }
            let mut i: usize = 0;
            while i < n
                invariant
                    i <= n,
                    n == block@.len(),
                    region@ == bottom,
                    bottom.len() == n,
                    forall|k: int| 0 <= k < i ==> block@[k] == bottom[k],
                decreases n - i,
            {
                block[i] = region[i];
                i = i + 1;
            }
            core::mem::swap(&mut self.flat, &mut region);
            proof {
                assert(block@ =~= bottom);
                assert(self@ =~= before);
                assert(is_way_down(*kernel, before, self@, 0, block@, seq![bottom]));
            }
            return true;
        }
        core::mem::swap(&mut self.buffers[factor - 1], &mut region);
        let ghost mut down: Seq<Seq<S>> = Seq::new((factor + 1) as nat, |k: int| bottom);
        let mut s: usize = factor;
        let mut len: usize = self.buffers[factor - 1].len();
        while s > 1
            invariant
                1 <= s <= factor <= depth,
                depth <= self.stages@.len(),
                depth <= self.buffers@.len(),
                depth == old(self).spec_max_factor(),
                self.stages@.len() == stages_before.len(),
                self.buffers@.len() == old(self).buffers@.len(),
                self.layout == old(self).layout,
                block@ == old(block)@,
                block@.len() == n,
                len == upsampled(n as nat, s as nat),
                upsampled(n as nat, factor as nat) <= usize::MAX,
                down.len() == factor + 1,
                down[factor as int] == bottom,
                forall|k: int|
                    #![trigger self.stages@[k]]
                    s <= k < factor ==> is_lowered(
                        *kernel,
                        stages_before[k]@,
                        self.stages@[k]@,
                        down[k + 1],
                        down[k],
                    ),
                forall|k: int| 0 <= k < s ==> (#[trigger] self.stages@[k])@ == stages_before[k]@,
                forall|k: int|
                    factor <= k < stages_before.len() ==> (#[trigger] self.stages@[k])@
                        == stages_before[k]@,
                self.buffers@[s - 1]@ == down[s as int],
                down[s as int].len() == len,
                forall|line: DelayLine<S>| call_requires(*kernel, (&line,)),
            decreases s,
        {
            proof {
                lemma_upsampled_doubles(n as nat, (s - 1) as nat);
            }
            let halved = len / 2;
            let ghost source = down[s as int];
            let ghost lowered_so_far = down;
            let ghost remembered = self.stages@[s - 1]@;
            let mut target: Vec<S> = Vec::new();
            core::mem::swap(&mut self.buffers[s - 2], &mut target);
            target.resize(halved, zero);
            let _ = self.stages[s - 1].lower(
                self.buffers[s - 1].as_slice(),
                halved,
                target.as_mut_slice(),
                kernel,
            );
            proof {
                assert(source.take(2 * halved) =~= source);
                assert(target@.take(halved as int) =~= target@);
                down = down.update(s - 1, target@);
                assert(is_lowered(
                    *kernel,
                    remembered,
                    self.stages@[s - 1]@,
                    down[s as int],
                    down[s - 1],
                ));
                assert forall|k: int|
                    #![trigger self.stages@[k]]
                    s - 1 <= k < factor implies is_lowered(
                    *kernel,
                    stages_before[k]@,
                    self.stages@[k]@,
                    down[k + 1],
                    down[k],
                ) by {
                    if k >= s {
                        assert(down[k + 1] == lowered_so_far[k + 1]);
                        assert(down[k] == lowered_so_far[k]);
                    }
                }
            }
            core::mem::swap(&mut self.buffers[s - 2], &mut target);
            len = halved;
            s = s - 1;
        }
        proof {
            lemma_upsampled_doubles(n as nat, 0);
        }
        let ghost source = down[1];
        let ghost lowered_so_far = down;
        let ghost remembered = self.stages@[0]@;
        let _ = self.stages[0].lower(self.buffers[0].as_slice(), n, block, kernel);
        proof {
            assert(source.take(2 * n) =~= source);
            assert(block@.take(n as int) =~= block@);
            down = down.update(0, block@);
            assert(is_lowered(*kernel, remembered, self.stages@[0]@, down[1], down[0]));
            assert forall|k: int| #![trigger self.stages@[k]] 0 <= k < factor implies is_lowered(
                *kernel,
                stages_before[k]@,
                self.stages@[k]@,
                down[k + 1],
                down[k],
            ) by {
                if k >= 1 {
                    assert(down[k + 1] == lowered_so_far[k + 1]);
                    assert(down[k] == lowered_so_far[k]);
                }
            }
            assert(is_way_down(*kernel, before, self@, factor as nat, block@, down));
        }
        true
    }

    /// Runs the oversampler over `block` at `factor`: the way up, then
    /// `transform` once on the whole block at the raised rate, then the way
    /// down, back into `block`. Returns whether the block was taken; a block
    /// or a factor above what the oversampler was made for changes nothing,
    /// and `transform` is not called.
    ///
    /// `transform` must leave the length of its region alone, as any function
    /// on a mutable slice does.
    pub fn process<U, D, T>(
        &mut self,
        block: &mut [S],
        factor: usize,
        zero: S,
        raise_kernel: U,
        lower_kernel: D,
        transform: T,
    ) -> (done: bool) where
        U: Fn(&DelayLine<S>) -> S,
        D: Fn(&DelayLine<S>) -> S,
        T: FnOnce(&mut [S]),

        requires
            forall|line: DelayLine<S>| call_requires(raise_kernel, (&line,)),
            forall|line: DelayLine<S>| call_requires(lower_kernel, (&line,)),
            forall|region: &mut [S]| call_requires(transform, (region,)),
            forall|region: &mut [S]| #[trigger]
                call_ensures(transform, (region,), ()) ==> final(region)@.len() == region@.len(),
        ensures
            done == old(self).accepts(old(block)@.len(), factor as nat),
            final(self).spec_max_block_size() == old(self).spec_max_block_size(),
            final(self).spec_max_factor() == old(self).spec_max_factor(),
            final(block)@.len() == old(block)@.len(),
            !done ==> final(self)@ == old(self)@ && final(block)@ == old(block)@,
            done ==> exists|mid: Seq<StageHistory<S>>, up: Seq<Seq<S>>, down: Seq<Seq<S>>|
                #[trigger] is_way_up(
                    raise_kernel,
                    zero,
                    old(self)@,
                    mid,
                    factor as nat,
                    old(block)@,
                    up,
                ) && #[trigger] is_way_down(
                    lower_kernel,
                    mid,
                    final(self)@,
                    factor as nat,
                    final(block)@,
                    down,
                ) && exists|region: &mut [S]|
                    region@ == up[factor as int] && final(region)@ == down[factor as int]
                        && #[trigger] call_ensures(transform, (region,), ()),
    {
        let ghost before = self@;
        let ghost input = block@;
        let mut region = match self.raise_block(block, factor, zero, &raise_kernel) {
            Some(region) => region,
            None => {
                return false;
            },
        };
        let ghost mid = self@;
        let ghost up = choose|up: Seq<Seq<S>>|
            #[trigger] is_way_up(raise_kernel, zero, before, mid, factor as nat, input, up)
                && region@ == up[factor as int];
        proof {
            lemma_up_lengths(raise_kernel, zero, before, mid, factor as nat, input, up, factor as nat);
        }
        transform(region.as_mut_slice());
        let done = self.lower_block(region, block, factor, zero, &lower_kernel);
        assert(done);
        done
    }
}

/// On the way up, stage `stage` is given `upsampled(input.len(), stage)`
/// samples.
pub proof fn lemma_up_lengths<S, U: Fn(&DelayLine<S>) -> S>(
    kernel: U,
    zero: S,
    before: Seq<StageHistory<S>>,
    after: Seq<StageHistory<S>>,
    factor: nat,
    input: Seq<S>,
    up: Seq<Seq<S>>,
    stage: nat,
)
    requires
        is_way_up(kernel, zero, before, after, factor, input, up),
        stage <= factor,
    ensures
        up[stage as int].len() == upsampled(input.len(), stage),
    decreases stage,
{
    lemma_upsampled_doubles(input.len(), 0);
    if stage > 0 {
        let s = stage - 1;
        lemma_up_lengths(kernel, zero, before, after, factor, input, up, s as nat);
        lemma_upsampled_doubles(input.len(), s as nat);
        assert(is_raised(kernel, zero, before[s], after[s], up[s], up[s + 1]));
        lemma_raise_keeps_sizes(kernel, zero, before[s], after[s], up[s], up[s + 1]);
    }
}

/// On the way down of a run whose block at the raised rate has the length
/// that the way up gives it, stage `stage` gives back
/// `upsampled(output.len(), stage)` samples.
pub proof fn lemma_down_lengths<S, D: Fn(&DelayLine<S>) -> S>(
    kernel: D,
    before: Seq<StageHistory<S>>,
    after: Seq<StageHistory<S>>,
    factor: nat,
    output: Seq<S>,
    down: Seq<Seq<S>>,
    stage: nat,
)
    requires
        is_way_down(kernel, before, after, factor, output, down),
        stage <= factor,
    ensures
        down[stage as int].len() == upsampled(output.len(), stage),
    decreases stage,
{
    lemma_upsampled_doubles(output.len(), 0);
    if stage > 0 {
        let s = stage - 1;
        lemma_down_lengths(kernel, before, after, factor, output, down, s as nat);
        lemma_upsampled_doubles(output.len(), s as nat);
        assert(is_lowered(kernel, before[s], after[s], down[s + 1], down[s]));
        lemma_lower_keeps_sizes(kernel, before[s], after[s], down[s + 1], down[s]);
    }
}

/// Whether each of the first `factor` of `histories` has the lengths of its
/// stage.
pub open spec fn are_sized<S>(histories: Seq<StageHistory<S>>, factor: nat) -> bool {
    forall|s: int|
        0 <= s < factor && s < histories.len() ==> is_sized(
            #[trigger] histories[s],
            spec_stage_padding(s as nat),
        )
}

/// Whether each of the first `factor` of `histories` holds nothing but
/// `zero`.
pub open spec fn are_silent<S>(histories: Seq<StageHistory<S>>, factor: nat, zero: S) -> bool {
    forall|s: int|
        0 <= s < factor && s < histories.len() ==> #[trigger] histories[s] == silenced(
            histories[s],
            zero,
        )
}

/// The histories of a new oversampler have the lengths of their stages and
/// hold nothing but `zero`.
pub proof fn lemma_new_histories<S>(max_factor: nat, zero: S)
    ensures
        are_sized(Seq::new(max_factor, |s: int| silent_history(s as nat, zero)), max_factor),
        are_silent(Seq::new(max_factor, |s: int| silent_history(s as nat, zero)), max_factor, zero),
{
    let histories = Seq::new(max_factor, |s: int| silent_history(s as nat, zero));
    assert forall|s: int| 0 <= s < max_factor implies #[trigger] histories[s] == silenced(
        histories[s],
        zero,
    ) by {
        assert(histories[s].raising =~= silenced(histories[s], zero).raising);
        assert(histories[s].holding =~= silenced(histories[s], zero).holding);
        assert(histories[s].lowering =~= silenced(histories[s], zero).lowering);
    }
}

/// A reset leaves each history as long as it was, and with nothing but `zero`
/// in it.
pub proof fn lemma_reset_histories<S>(before: Seq<StageHistory<S>>, zero: S)
    ensures
        are_sized(before, before.len()) ==> are_sized(
            Seq::new(before.len(), |s: int| silenced(before[s], zero)),
            before.len(),
        ),
        are_silent(Seq::new(before.len(), |s: int| silenced(before[s], zero)), before.len(), zero),
{
    let after = Seq::new(before.len(), |s: int| silenced(before[s], zero));
    assert forall|s: int| 0 <= s < before.len() implies #[trigger] after[s] == silenced(
        after[s],
        zero,
    ) by {
        assert(after[s].raising =~= silenced(after[s], zero).raising);
        assert(after[s].holding =~= silenced(after[s], zero).holding);
        assert(after[s].lowering =~= silenced(after[s], zero).lowering);
    }
    if are_sized(before, before.len()) {
        assert forall|s: int| 0 <= s < before.len() implies is_sized(
            #[trigger] after[s],
            spec_stage_padding(s as nat),
        ) by {
            assert(is_sized(before[s], spec_stage_padding(s as nat)));
        }
    }
}

/// The way up and the way down leave each stage with histories as long as
/// they found them.
pub proof fn lemma_ways_keep_sizes<S, U: Fn(&DelayLine<S>) -> S, D: Fn(&DelayLine<S>) -> S>(
    raise_kernel: U,
    lower_kernel: D,
    zero: S,
    before: Seq<StageHistory<S>>,
    mid: Seq<StageHistory<S>>,
    after: Seq<StageHistory<S>>,
    factor: nat,
    input: Seq<S>,
    output: Seq<S>,
    up: Seq<Seq<S>>,
    down: Seq<Seq<S>>,
)
    requires
        is_way_up(raise_kernel, zero, before, mid, factor, input, up),
        is_way_down(lower_kernel, mid, after, factor, output, down),
        are_sized(before, before.len()),
    ensures
        are_sized(mid, mid.len()),
        are_sized(after, after.len()),
{
    assert forall|s: int| 0 <= s < mid.len() implies is_sized(
        #[trigger] mid[s],
        spec_stage_padding(s as nat),
    ) by {
        assert(is_sized(before[s], spec_stage_padding(s as nat)));
        if s < factor {
            assert(is_raised(raise_kernel, zero, before[s], mid[s], up[s], up[s + 1]));
            lemma_raise_keeps_sizes(raise_kernel, zero, before[s], mid[s], up[s], up[s + 1]);
        }
    }
    assert forall|s: int| 0 <= s < after.len() implies is_sized(
        #[trigger] after[s],
        spec_stage_padding(s as nat),
    ) by {
        assert(is_sized(mid[s], spec_stage_padding(s as nat)));
        if s < factor {
            assert(is_lowered(lower_kernel, mid[s], after[s], down[s + 1], down[s]));
            lemma_lower_keeps_sizes(lower_kernel, mid[s], after[s], down[s + 1], down[s]);
        }
    }
}

/// The delay, in samples at the rate of stage `stage`'s input, of the stages
/// from `stage` up to `factor`.
pub open spec fn delay_from(stage: nat, factor: nat) -> nat {
    ((spec_latency(factor) - spec_latency(stage)) * pow2(stage)) as nat
}

/// In a run whose kernels do nothing but delay and in which nothing is done
/// to the block at the raised rate, what stage `stage` gives back on the way
/// down is what it was given on the way up, later by the delay of the stages
/// from there on.
proof fn lemma_stages_delay_from<S, U: Fn(&DelayLine<S>) -> S, D: Fn(&DelayLine<S>) -> S>(
    raise_kernel: U,
    lower_kernel: D,
    zero: S,
    before: Seq<StageHistory<S>>,
    mid: Seq<StageHistory<S>>,
    after: Seq<StageHistory<S>>,
    factor: nat,
    input: Seq<S>,
    output: Seq<S>,
    up: Seq<Seq<S>>,
    down: Seq<Seq<S>>,
    stage: nat,
)
    requires
        is_way_up(raise_kernel, zero, before, mid, factor, input, up),
        is_way_down(lower_kernel, mid, after, factor, output, down),
        down[factor as int] == up[factor as int],
        is_centre_tap(raise_kernel),
        is_centre_tap(lower_kernel),
        are_sized(before, factor),
        stage <= factor,
    ensures
        is_delayed(up[stage as int], down[stage as int], delay_from(stage, factor)),
        are_silent(before, factor, zero) ==> starts_silent(
            down[stage as int],
            delay_from(stage, factor),
            zero,
        ),
    decreases factor - stage,
{
    if stage < factor {
        lemma_stages_delay_from(
            raise_kernel,
            lower_kernel,
            zero,
            before,
            mid,
            after,
            factor,
            input,
            output,
            up,
            down,
            stage + 1,
        );
        let s = stage as int;
        let whole = spec_stage_latency(stage) as int;
        let rest = spec_latency(factor) - spec_latency(stage + 1);
        let rate = pow2(stage) as int;
        lemma_latency_grows(stage + 1, factor);
        lemma_stage_delay_at_input_rate(stage);
        lemma_pow2_unfold(stage + 1);
        let delay = (whole * rate) as nat;
        let inner = (rest * rate) as nat;
        assert(whole * rate >= 0 && rest * rate >= 0) by (nonlinear_arith)
            requires
                whole >= 0,
                rest >= 0,
                rate >= 0,
        ;
        assert(delay_from(stage + 1, factor) == 2 * inner) by (nonlinear_arith)
            requires
                delay_from(stage + 1, factor) == rest * (2 * rate),
                inner == rest * rate,
        ;
        assert(delay_from(stage, factor) == delay + inner) by (nonlinear_arith)
            requires
                delay_from(stage, factor) == (whole + rest) * rate,
                delay == whole * rate,
                inner == rest * rate,
        ;
        assert(is_sized(before[s], spec_stage_padding(stage)));
        assert(is_raised(raise_kernel, zero, before[s], mid[s], up[s], up[s + 1]));
        assert(is_lowered(lower_kernel, mid[s], after[s], down[s + 1], down[s]));
        lemma_raise_keeps_sizes(raise_kernel, zero, before[s], mid[s], up[s], up[s + 1]);
        lemma_stage_delays(
            raise_kernel,
            lower_kernel,
            zero,
            before[s],
            mid[s],
            after[s],
            up[s],
            up[s + 1],
            down[s + 1],
            down[s],
            delay,
            inner,
        );
    }
}

/// The latency that the oversampler reports is the delay of its structure:
/// in a run at `factor` whose kernels do nothing but delay and in which
/// nothing is done to the block at the raised rate, the block that comes out
/// is the block that went in, later by `spec_latency(factor)` samples. Where
/// the stages remembered nothing but `zero`, as after a reset, the block
/// that comes out starts with `zero` for that many samples.
pub proof fn lemma_round_trip_is_delay<S, U: Fn(&DelayLine<S>) -> S, D: Fn(&DelayLine<S>) -> S>(
    raise_kernel: U,
    lower_kernel: D,
    zero: S,
    before: Seq<StageHistory<S>>,
    mid: Seq<StageHistory<S>>,
    after: Seq<StageHistory<S>>,
    factor: nat,
    input: Seq<S>,
    output: Seq<S>,
    up: Seq<Seq<S>>,
    down: Seq<Seq<S>>,
)
    requires
        is_way_up(raise_kernel, zero, before, mid, factor, input, up),
        is_way_down(lower_kernel, mid, after, factor, output, down),
        down[factor as int] == up[factor as int],
        is_centre_tap(raise_kernel),
        is_centre_tap(lower_kernel),
        are_sized(before, factor),
    ensures
        is_delayed(input, output, spec_latency(factor)),
        are_silent(before, factor, zero) ==> starts_silent(output, spec_latency(factor), zero),
{
    lemma_stages_delay_from(
        raise_kernel,
        lower_kernel,
        zero,
        before,
        mid,
        after,
        factor,
        input,
        output,
        up,
        down,
        0,
    );
    lemma2_to64();
}

} // verus!
