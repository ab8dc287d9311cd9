//! Corpus-wide token frequency statistics: a verified token order, a
//! verified frequency accumulator with threshold-filtered merging, and the
//! persisted form it is saved to and loaded from.
pub mod idf;

pub mod token;
