//! A delay line of fixed length: the history a stage of the oversampler keeps
//! of the samples that went through it.
//!
//! A line of length `n` always holds the last `n` samples it was given. The
//! sample type is a parameter; a line is allocated once and never grows.

use vstd::prelude::*;

verus! {

/// For a place less than twice `len`, wrapping it into a ring of `len` slots
/// subtracts `len` at most once.
proof fn lemma_wrap(place: int, len: int)
    requires
        0 <= place < 2 * len,
    ensures
        place % len == if place < len {
            place
        } else {
            place - len
        },
{
    if place < len {
        vstd::arithmetic::div_mod::lemma_small_mod(place as nat, len as nat);
    } else {
        vstd::arithmetic::div_mod::lemma_small_mod((place - len) as nat, len as nat);
        vstd::arithmetic::div_mod::lemma_mod_sub_multiples_vanish(place, len);
    }
}

/// The slots of a ring read from `next` on, once around.
spec fn unrolled<S>(slots: Seq<S>, next: int) -> Seq<S> {
    Seq::new(slots.len(), |i: int| slots[(next + i) % slots.len() as int])
}

/// What a line that holds `line` holds after it was given `sample`.
pub open spec fn line_after_push<S>(line: Seq<S>, sample: S) -> Seq<S> {
    line.push(sample).drop_first()
}

/// What a line that holds `line` gives out when it is given `sample`: its
/// oldest sample, or `sample` itself where the line has no length.
pub open spec fn pushed_out<S>(line: Seq<S>, sample: S) -> S {
    line.push(sample)[0]
}

/// A delay line: the last `len` samples, oldest first.
pub struct DelayLine<S> {
    slots: Vec<S>,
    next: usize,
}

impl<S> View for DelayLine<S> {
    type V = Seq<S>;

    /// The samples the line holds, oldest first.
    closed spec fn view(&self) -> Seq<S> {
        unrolled(self.slots@, self.next as int)
    }
}

impl<S> DelayLine<S> {
    #[verifier::type_invariant]
    spec fn next_in_ring(self) -> bool {
        self.next < self.slots@.len() || (self.next == 0 && self.slots@.len() == 0)
    }
}

impl<S: Copy> DelayLine<S> {
    /// A line of `len` samples, each of them `fill`.
    pub fn new(len: usize, fill: S) -> (line: Self)
        ensures
            line@ == Seq::new(len as nat, |i: int| fill),
    {
        let mut slots: Vec<S> = Vec::with_capacity(len);
        let mut made: usize = 0;
        while made < len
            invariant
                made <= len,
                slots@ == Seq::new(made as nat, |i: int| fill),
            decreases len - made,
        {
            slots.push(fill);
            made = made + 1;
        }
        let line = DelayLine { slots, next: 0 };
        assert(line@ == Seq::new(len as nat, |i: int| fill)) by {
            assert forall|i: int| 0 <= i < len implies #[trigger] line@[i] == fill by {
                lemma_wrap(i, len as int);
            }
        }
        line
    }

    /// The number of samples the line holds.
    pub fn len(&self) -> (len: usize)
        ensures
            len == self@.len(),
    {
        self.slots.len()
    }

    /// Gives the line `sample` as its newest and returns the sample that
    /// leaves it: the one that was given `len` calls ago.
    pub fn push(&mut self, sample: S) -> (oldest: S)
        ensures
            oldest == pushed_out(old(self)@, sample),
            final(self)@ == line_after_push(old(self)@, sample),
    {
        proof {
            use_type_invariant(&*self);
        }
        let len = self.slots.len();
        if len == 0 {
            return sample;
        }
        let ghost line = self@;
        let at = self.next;
        let oldest = self.slots[at];
        proof {
            lemma_wrap(at as int, len as int);
        }
        let next = if at + 1 < len {
            at + 1
        } else {
            0
        };
        self.slots[at] = sample;
        self.next = next;
        proof {
            assert forall|i: int| 0 <= i < len implies #[trigger] self@[i] == line_after_push(
                line,
                sample,
            )[i] by {
                lemma_wrap(next + i, len as int);
                lemma_wrap(at + i + 1, len as int);
            }
        }
        oldest
    }

    /// The sample that was given `age` calls of `push` before the newest:
    /// age 0 is the newest sample, age `len - 1` the oldest.
    pub fn tap(&self, age: usize) -> (sample: Option<S>)
        ensures
            sample == if age < self@.len() {
                Some(self@[self@.len() - 1 - age])
            } else {
                None
            },
    {
        proof {
            use_type_invariant(self);
        }
        let len = self.slots.len();
        if age >= len {
            return None;
        }
        let at = if age < self.next {
            self.next - 1 - age
        } else {
            len - 1 - (age - self.next)
        };
        proof {
            lemma_wrap(self.next + len - 1 - age, len as int);
        }
        Some(self.slots[at])
    }

    /// Overwrites every sample of the line with `fill`.
    pub fn reset(&mut self, fill: S)
        ensures
            final(self)@ == Seq::new(old(self)@.len(), |i: int| fill),
    {
        proof {
            use_type_invariant(&*self);
        }
        let len = self.slots.len();
        self.next = 0;
        let mut done: usize = 0;
        while done < len
            invariant
                done <= len,
                self.slots@.len() == len,
                forall|i: int| 0 <= i < done ==> self.slots@[i] == fill,
                self.next == 0,
            decreases len - done,
        {
            self.slots[done] = fill;
            done = done + 1;
        }
        proof {
            assert forall|i: int| 0 <= i < len implies #[trigger] self@[i] == fill by {
                lemma_wrap(i, len as int);
            }
        }
    }
}

/// What a line that holds `line` holds after it was given each of `samples`,
/// first to last.
pub open spec fn line_after<S>(line: Seq<S>, samples: Seq<S>) -> Seq<S>
    decreases samples.len(),
{
    if samples.len() == 0 {
        line
    } else {
        line_after_push(line_after(line, samples.drop_last()), samples.last())
    }
}

/// What a line that holds `line` gives out, sample by sample, while it is
/// given each of `samples`, first to last.
pub open spec fn given_out<S>(line: Seq<S>, samples: Seq<S>) -> Seq<S>
    decreases samples.len(),
{
    if samples.len() == 0 {
        Seq::empty()
    } else {
        given_out(line, samples.drop_last()).push(
            pushed_out(line_after(line, samples.drop_last()), samples.last()),
        )
    }
}

/// A line is a window that slides over what it held followed by what it is
/// given: it keeps the end of that run and has given out its beginning, in
/// order. So a line of length `n` gives out first the `n` samples it held,
/// and then each sample `n` calls after it went in.
pub proof fn lemma_line_slides<S>(line: Seq<S>, samples: Seq<S>)
    ensures
        line_after(line, samples) == (line + samples).skip(samples.len() as int),
        given_out(line, samples) == (line + samples).take(samples.len() as int),
        line_after(line, samples).len() == line.len(),
        forall|i: int|
            line.len() <= i < samples.len() ==> #[trigger] given_out(line, samples)[i]
                == samples[i - line.len()],
    decreases samples.len(),
{
    if samples.len() > 0 {
        lemma_line_slides(line, samples.drop_last());
    }
}

/// One more sample: the line takes it as `line_after_push` says, and what it
/// gave out before is followed by what `pushed_out` says.
pub proof fn lemma_one_more_sample<S>(line: Seq<S>, samples: Seq<S>, sample: S)
    ensures
        line_after(line, samples.push(sample)) == line_after_push(
            line_after(line, samples),
            sample,
        ),
        given_out(line, samples.push(sample)) == given_out(line, samples).push(
            pushed_out(line_after(line, samples), sample),
        ),
{
    assert(samples.push(sample).drop_last() =~= samples);
}

} // verus!
