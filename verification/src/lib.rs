//! A verified implementation of the MT19937 Mersenne Twister pseudo-random
//! number generator.
//!
//! The generator keeps a 624-word state array of 32-bit values (stored in
//! `u64` words whose upper half is always zero), a cursor into that array,
//! and the seed it was built from.  `model` gives the mathematical
//! definition of seeding, the twist recurrence and the tempering transform;
//! `generator` holds the executable generator, proved to follow that model
//! word for word.

pub mod generator;
pub mod model;
