//! Hierarchical body plans for articulated creatures: normalized, ranged
//! genes; cuboid segment definitions joined into a rooted body tree; a
//! generic realization protocol; a mutation engine; randomized growth; and
//! a verified text codec for whole populations.
//!
//! Gene values are fixed-point fractions: a raw value `r` stands for the
//! real number `r / RAW_ONE` in the unit interval, and range bounds are
//! expressed in the same micro-unit scale.

pub mod generic_mutation;
pub mod params;
pub mod body;
pub mod rng;
pub mod serialise;
pub mod tree;
