//! Verified core of a semantic-version tool: parsing and printing of
//! SemVer 2.0.0 version strings, dual-axis (semantic / lexical) comparison
//! with an exit-status encoding, ambiguity-aware stable sorting, and
//! grammar-constrained random version generation.

pub mod compare;
pub mod generate;
pub mod output;
pub mod filter;
pub mod sort;
pub mod text;
pub mod version;

pub use compare::Ordering;
