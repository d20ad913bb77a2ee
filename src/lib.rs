//! Splice-aware realignment of long reads against a column profile, and read-backed
//! phasing of candidate heterozygous sites.
//!
//! - `column`: allele counts of one pileup column and its substitution scores.
//! - `align`: the dynamic-programming aligner (global, semi-global, banded) with its
//!   recurrences stated as spec functions.
//! - `matrix`: the realignment matrix, its column profiles, iterative realignment and
//!   the alignment operations of a realigned row.
//! - `phase`: candidate sites, fragments and the site graph, max-cut start, and the
//!   likelihood ascent over haplotype and read assignment.
pub mod column;
pub mod align;
pub mod phase;
pub mod matrix;
