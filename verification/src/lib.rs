//! Blank-node aware comparison of RDF datasets.
//!
//! Two datasets are isomorphic when renaming their blank nodes through a
//! one-to-one mapping turns the first into the second.

pub mod model;
pub mod order;
pub mod permutation;
pub mod isomorphism;
pub mod properties;
