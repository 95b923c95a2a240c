//! The parametric equalizer's bank: an ordered run of at most sixteen bands.
//!
//! The bank fixes what does not depend on arithmetic: how many bands there may
//! be, in which order they are visited, and which requests are turned down.
//! The band itself (`B`) and the sample rate (`R`) are parameters, so the
//! numeric code that tunes and runs a band is handed in by the caller.

use vstd::prelude::*;

verus! {

/// The largest number of bands a bank holds.
pub const MAX_BANDS: usize = 16;

/// The three filter shapes a band can take.
#[derive(Clone, Copy, Debug, PartialEq, Eq, Structural)]
pub enum BandType {
    LowShelf,
    Peak,
    HighShelf,
}

impl BandType {
    /// Whether the shape is one of the two shelves.
    pub open spec fn spec_is_shelf(self) -> bool {
        self != BandType::Peak
    }

    /// Whether the shape is one of the two shelves. Shelves widen with the
    /// boost: their Q is scaled before the coefficients are derived, a peak's
    /// is not.
    #[verifier::when_used_as_spec(spec_is_shelf)]
    pub fn is_shelf(self) -> (shelf: bool)
        ensures
            shelf == self.spec_is_shelf(),
    {
        match self {
            BandType::LowShelf => true,
            BandType::Peak => false,
            BandType::HighShelf => true,
        }
    }
}

/// Why the bank turned a request down.
#[derive(Clone, Copy, Debug, PartialEq, Eq, Structural)]
pub enum EqError {
    /// The bank already holds `MAX_BANDS` bands.
    CapacityExceeded,
    /// The index names no band of the bank.
    IndexOutOfRange,
}

impl EqError {
    /// The text shown for each error.
    pub open spec fn spec_message(self) -> Seq<char> {
        match self {
            EqError::CapacityExceeded => "Maximum number of bands (16) reached"@,
            EqError::IndexOutOfRange => "Band index out of range"@,
        }
    }

    /// The text shown for this error.
    pub fn message(&self) -> (text: &'static str)
        ensures
            text@ == self.spec_message(),
    {
        match self {
            EqError::CapacityExceeded => "Maximum number of bands (16) reached",
            EqError::IndexOutOfRange => "Band index out of range",
        }
    }
}

/// What adding `band` to a bank that holds `bands` leaves in the bank.
pub open spec fn bands_after_add<B>(bands: Seq<B>, band: B) -> Seq<B> {
    if bands.len() < MAX_BANDS {
        bands.push(band)
    } else {
        bands
    }
}

/// What adding a band to a bank that holds `bands` returns.
pub open spec fn add_outcome<B>(bands: Seq<B>) -> Result<(), EqError> {
    if bands.len() < MAX_BANDS {
        Ok(())
    } else {
        Err(EqError::CapacityExceeded)
    }
}

/// What removing the band at `index` leaves in a bank that holds `bands`.
pub open spec fn bands_after_remove<B>(bands: Seq<B>, index: int) -> Seq<B> {
    if 0 <= index < bands.len() {
        bands.remove(index)
    } else {
        bands
    }
}

/// What a request that names the band at `index` returns, as far as the
/// index decides it.
pub open spec fn index_outcome<B>(bands: Seq<B>, index: int) -> Result<(), EqError> {
    if 0 <= index < bands.len() {
        Ok(())
    } else {
        Err(EqError::IndexOutOfRange)
    }
}

/// Whether `signal` records one pass through a bank: `signal[0]` goes into the
/// first band, each band turns `signal[i]` into `signal[i + 1]` by one call of
/// `step` and becomes `after[i]`, and the last entry is what comes out.
pub open spec fn is_cascade<B, S, F: Fn(&B, S) -> (B, S)>(
    step: F,
    before: Seq<B>,
    after: Seq<B>,
    signal: Seq<S>,
) -> bool {
    &&& after.len() == before.len()
    &&& signal.len() == before.len() + 1
    &&& forall|i: int|
        0 <= i < before.len() ==> call_ensures(
            step,
            (&before[i], signal[i]),
            (#[trigger] after[i], signal[i + 1]),
        )
}

/// A bank of at most `MAX_BANDS` bands, kept in the order in which they were
/// added, together with the sample rate they are tuned for.
pub struct ParametricEQ<R, B> {
    sample_rate: R,
    bands: Vec<B>,
}

impl<R, B> View for ParametricEQ<R, B> {
    type V = Seq<B>;

    /// The bands, first added first.
    closed spec fn view(&self) -> Seq<B> {
        self.bands@
    }
}

impl<R, B> ParametricEQ<R, B> {
    #[verifier::type_invariant]
    spec fn within_capacity(self) -> bool {
        self.bands@.len() <= MAX_BANDS
    }

    /// The sample rate the bank was last given.
    pub closed spec fn rate(&self) -> R {
        self.sample_rate
    }

    /// Moves the bands out of the bank, which is left empty.
    fn take_bands(&mut self) -> (bands: Vec<B>)
        ensures
            bands@ == old(self)@,
            bands@.len() <= MAX_BANDS,
            final(self)@ == Seq::<B>::empty(),
            final(self).rate() == old(self).rate(),
    {
        proof {
            use_type_invariant(&*self);
        }
        let mut bands: Vec<B> = Vec::new();
        core::mem::swap(&mut self.bands, &mut bands);
        bands
    }

    /// Moves `bands` into the bank, in place of those it holds.
    fn put_bands(&mut self, bands: Vec<B>)
        requires
            bands@.len() <= MAX_BANDS,
        ensures
            final(self)@ == bands@,
            final(self).rate() == old(self).rate(),
    {
        self.bands = bands;
    }

    /// An empty bank for the given sample rate.
    pub fn new(sample_rate: R) -> (eq: Self)
        ensures
            eq@ == Seq::<B>::empty(),
            eq.rate() == sample_rate,
    {
        ParametricEQ { sample_rate, bands: Vec::with_capacity(MAX_BANDS) }
    }

    /// The number of bands in the bank.
    pub fn len(&self) -> (n: usize)
        ensures
            n == self@.len(),
            n <= MAX_BANDS,
    {
        proof {
            use_type_invariant(self);
        }
        self.bands.len()
    }

    /// The sample rate the bank was last given.
    pub fn sample_rate(&self) -> (rate: &R)
        ensures
            *rate == self.rate(),
    {
        &self.sample_rate
    }

    /// The band at `index`, if there is one.
    pub fn band(&self, index: usize) -> (found: Option<&B>)
        ensures
            index < self@.len() ==> found == Some(&self@[index as int]),
            index >= self@.len() ==> found is None,
    {
        if index < self.bands.len() {
            Some(&self.bands[index])
        } else {
            None
        }
    }

    /// Appends what `make` makes for the bank's sample rate as the last band,
    /// unless the bank is full. `make` is called once, and only where there
    /// is room for a band.
    pub fn add_band<F: FnOnce(&R) -> B>(&mut self, make: F) -> (outcome: Result<(), EqError>)
        requires
            old(self)@.len() < MAX_BANDS ==> call_requires(make, (&old(self).rate(),)),
        ensures
            outcome == add_outcome(old(self)@),
            final(self).rate() == old(self).rate(),
            outcome is Err ==> final(self)@ == old(self)@,
            outcome is Ok ==> final(self)@ == bands_after_add(old(self)@, final(self)@.last()),
            outcome is Ok ==> call_ensures(make, (&old(self).rate(),), final(self)@.last()),
    {
        if self.bands.len() >= MAX_BANDS {
            return Err(EqError::CapacityExceeded);
        }
        let band = make(&self.sample_rate);
        let mut bands = self.take_bands();
        bands.push(band);
        self.put_bands(bands);
        Ok(())
    }

    /// Takes the band at `index` out of the bank; the bands behind it move up
    /// by one place and keep their order.
    pub fn remove_band(&mut self, index: usize) -> (outcome: Result<(), EqError>)
        ensures
            outcome == index_outcome(old(self)@, index as int),
            final(self)@ == bands_after_remove(old(self)@, index as int),
            final(self).rate() == old(self).rate(),
    {
        if index >= self.bands.len() {
            return Err(EqError::IndexOutOfRange);
        }
        let mut bands = self.take_bands();
        let _ = bands.remove(index);
        self.put_bands(bands);
        Ok(())
    }

    /// Replaces the band at `index` by what `tune` makes of it and of the
    /// bank's sample rate. `tune` is called once, and only for an index that
    /// names a band.
    pub fn set_band_params<F: FnOnce(&B, &R) -> B>(&mut self, index: usize, tune: F) -> (outcome:
        Result<(), EqError>)
        requires
            index < old(self)@.len() ==> call_requires(
                tune,
                (&old(self)@[index as int], &old(self).rate()),
            ),
        ensures
            outcome == index_outcome(old(self)@, index as int),
            final(self).rate() == old(self).rate(),
            index >= old(self)@.len() ==> final(self)@ == old(self)@,
            index < old(self)@.len() ==> final(self)@ == old(self)@.update(
                index as int,
                final(self)@[index as int],
            ),
            index < old(self)@.len() ==> call_ensures(
                tune,
                (&old(self)@[index as int], &old(self).rate()),
                final(self)@[index as int],
            ),
    {
        if index >= self.bands.len() {
            return Err(EqError::IndexOutOfRange);
        }
        let tuned = tune(&self.bands[index], &self.sample_rate);
        proof {
            use_type_invariant(&*self);
        }
        self.bands[index] = tuned;
        Ok(())
    }

    /// Stores `sample_rate` and replaces every band by what `tune` makes of it
    /// and of the new rate, first band first.
    pub fn set_sample_rate<F: Fn(&B, &R) -> B>(&mut self, sample_rate: R, tune: &F)
        requires
            forall|i: int|
                0 <= i < old(self)@.len() ==> call_requires(
                    *tune,
                    (&#[trigger] old(self)@[i], &sample_rate),
                ),
        ensures
            final(self).rate() == sample_rate,
            final(self)@.len() == old(self)@.len(),
            forall|i: int|
                0 <= i < old(self)@.len() ==> call_ensures(
                    *tune,
                    (&old(self)@[i], &sample_rate),
                    #[trigger] final(self)@[i],
                ),
    {
        let ghost before = self@;
        proof {
            use_type_invariant(&*self);
        }
        self.sample_rate = sample_rate;
        let n = self.bands.len();
        let mut i: usize = 0;
        while i < n
            invariant
                i <= n,
                n == before.len(),
                n <= MAX_BANDS,
                self@.len() == n,
                self.rate() == sample_rate,
                forall|k: int| i <= k < n ==> self@[k] == before[k],
                forall|k: int|
                    0 <= k < i ==> call_ensures(
                        *tune,
                        (&before[k], &sample_rate),
                        #[trigger] self@[k],
                    ),
                forall|k: int|
                    0 <= k < n ==> call_requires(*tune, (&#[trigger] before[k], &sample_rate)),
            decreases n - i,
        {
            let tuned = tune(&self.bands[i], &self.sample_rate);
            self.bands[i] = tuned;
            i += 1;
        }
    }

    /// Sends `input` through the bands in the order in which they were added:
    /// each band takes what the band before it gave out, by one call of
    /// `step`, which also yields the band as it is after that sample. A bank
    /// without bands returns `input`.
    pub fn process<S, F: Fn(&B, S) -> (B, S)>(&mut self, input: S, step: &F) -> (output: S)
        requires
            forall|i: int, x: S|
                0 <= i < old(self)@.len() ==> call_requires(*step, (&#[trigger] old(self)@[i], x)),
        ensures
            final(self).rate() == old(self).rate(),
            exists|signal: Seq<S>|
                #[trigger] is_cascade(*step, old(self)@, final(self)@, signal) && signal[0]
                    == input && signal.last() == output,
            old(self)@.len() == 0 ==> output == input,
    {
        let ghost before = self@;
        let ghost rate = self.rate();
        let ghost mut signal: Seq<S> = seq![input];
        proof {
            use_type_invariant(&*self);
        }
        let n = self.bands.len();
        let mut x = input;
        let mut i: usize = 0;
        while i < n
            invariant
                i <= n,
                n == before.len(),
                n <= MAX_BANDS,
                self@.len() == n,
                self.rate() == rate,
                signal.len() == i + 1,
                signal[0] == input,
                signal[i as int] == x,
                forall|k: int| i <= k < n ==> self@[k] == before[k],
                forall|k: int|
                    0 <= k < i ==> call_ensures(
                        *step,
                        (&before[k], signal[k]),
                        (#[trigger] self@[k], signal[k + 1]),
                    ),
                forall|k: int, y: S|
                    0 <= k < n ==> call_requires(*step, (&#[trigger] before[k], y)),
            decreases n - i,
        {
            let (band, y) = step(&self.bands[i], x);
            proof {
                signal = signal.push(y);
            }
            self.bands[i] = band;
            x = y;
            i += 1;
        }
        proof {
            assert(is_cascade(*step, before, self@, signal));
        }
        x
    }
}

/// The bank that results when each of `offered` is offered to an empty bank,
/// first to last.
pub open spec fn bank_after_adds<B>(offered: Seq<B>) -> Seq<B>
    decreases offered.len(),
{
    if offered.len() == 0 {
        Seq::empty()
    } else {
        bands_after_add(bank_after_adds(offered.drop_last()), offered.last())
    }
}

/// An empty bank takes the first `MAX_BANDS` bands it is offered, in the
/// order in which they come, and none after them: the offer that follows
/// fewer than `MAX_BANDS` others is accepted, every later one is refused
/// with `CapacityExceeded`.
pub proof fn lemma_adds_fill_to_capacity<B>(offered: Seq<B>)
    ensures
        bank_after_adds(offered) == if offered.len() <= MAX_BANDS {
            offered
        } else {
            offered.take(MAX_BANDS as int)
        },
        add_outcome(bank_after_adds(offered)) == if offered.len() < MAX_BANDS {
            Ok::<(), EqError>(())
        } else {
            Err::<(), EqError>(EqError::CapacityExceeded)
        },
    decreases offered.len(),
{
    if offered.len() > 0 {
        lemma_adds_fill_to_capacity(offered.drop_last());
    }
}

/// A request that names a band by its index is refused with
/// `IndexOutOfRange` exactly when the index is not below the number of
/// bands.
pub proof fn lemma_index_decides<B>(bands: Seq<B>, index: usize)
    ensures
        index_outcome(bands, index as int) is Ok <==> index < bands.len(),
        index_outcome(bands, index as int) == Err::<(), EqError>(EqError::IndexOutOfRange)
            <==> index >= bands.len(),
{
}

/// Removing a band leaves the bands before it in place and moves each band
/// behind it up by one place.
pub proof fn lemma_remove_closes_the_gap<B>(bands: Seq<B>, index: int)
    requires
        0 <= index < bands.len(),
    ensures
        bands_after_remove(bands, index).len() == bands.len() - 1,
        forall|i: int| 0 <= i < index ==> #[trigger] bands_after_remove(bands, index)[i] == bands[i],
        forall|i: int|
            index <= i < bands.len() - 1 ==> #[trigger] bands_after_remove(bands, index)[i]
                == bands[i + 1],
{
}

/// Whether `step` gives the same band and the same sample whenever it is
/// given the same band and the same sample.
pub open spec fn is_function<B, S, F: Fn(&B, S) -> (B, S)>(step: F) -> bool {
    forall|band: B, x: S, first: (B, S), second: (B, S)|
        #[trigger] call_ensures(step, (&band, x), first) && #[trigger] call_ensures(
            step,
            (&band, x),
            second,
        ) ==> first == second
}

/// Two passes through the same bank up to its band `upto`, with the same
/// `step` and the same sample going in, agree up to there.
proof fn lemma_cascades_agree_upto<B, S, F: Fn(&B, S) -> (B, S)>(
    step: F,
    before: Seq<B>,
    first_after: Seq<B>,
    first_signal: Seq<S>,
    second_after: Seq<B>,
    second_signal: Seq<S>,
    upto: int,
)
    requires
        is_function(step),
        is_cascade(step, before, first_after, first_signal),
        is_cascade(step, before, second_after, second_signal),
        first_signal[0] == second_signal[0],
        0 <= upto <= before.len(),
    ensures
        forall|i: int| 0 <= i < upto ==> first_after[i] == second_after[i],
        forall|i: int| 0 <= i <= upto ==> first_signal[i] == second_signal[i],
    decreases upto,
{
    if upto > 0 {
        lemma_cascades_agree_upto(
            step,
            before,
            first_after,
            first_signal,
            second_after,
            second_signal,
            upto - 1,
        );
        let at = upto - 1;
        assert(call_ensures(
            step,
            (&before[at], first_signal[at]),
            (first_after[at], first_signal[at + 1]),
        ));
        assert(call_ensures(
            step,
            (&before[at], second_signal[at]),
            (second_after[at], second_signal[at + 1]),
        ));
    }
}

/// Where `step` is a function, a pass through a bank is determined by the
/// bank and the sample that goes in: the bands it leaves and every sample
/// on the way, the last of which comes out.
pub proof fn lemma_cascade_is_determined<B, S, F: Fn(&B, S) -> (B, S)>(
    step: F,
    before: Seq<B>,
    first_after: Seq<B>,
    first_signal: Seq<S>,
    second_after: Seq<B>,
    second_signal: Seq<S>,
)
    requires
        is_function(step),
        is_cascade(step, before, first_after, first_signal),
        is_cascade(step, before, second_after, second_signal),
        first_signal[0] == second_signal[0],
    ensures
        first_after == second_after,
        first_signal == second_signal,
{
    lemma_cascades_agree_upto(
        step,
        before,
        first_after,
        first_signal,
        second_after,
        second_signal,
        before.len() as int,
    );
}

} // verus!
