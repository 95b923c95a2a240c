//! The structure of an oversampled distortion effect, with contracts that
//! Verus proves: the equalizer's bank of bands, the oversampler and its
//! stages, the order of the steps in a channel, and what the chain does when
//! a block begins.
//!
//! The crate holds no floating-point number. Samples, bands, sample rates and
//! parameters are type parameters, and every step that computes on them is a
//! function handed in by the caller. The contracts say which of these
//! functions is called, on what, in which order, and where its result goes.

pub mod equalization;
pub mod delay;
pub mod oversampling;
pub mod stage;
pub mod oversampler;
pub mod channel;
pub mod chain;
