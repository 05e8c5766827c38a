//! A library for a small flat-file, plain-text record format.
//!
//! A text source is parsed into records ("memos"); each record is an
//! ordered list of key/value nodes, the first of which (the header)
//! names the record's collection and title.  Records can be filtered
//! with a small query language ("MQL") that compiles into a
//! conjunction of per-node predicates.
//!
//! - [`value`], [`node`] and [`memo`] hold the data model;
//! - [`parser`] turns record text into records;
//! - [`filter`] evaluates predicates over records and selects
//!   matching nodes;
//! - [`mql`] and [`fex`] compile query text into filters;
//! - [`single`] handles IEEE-754 single-precision numbers through
//!   their bit patterns;
//! - [`text`] holds shared character-level helpers;
//! - [`sample`] builds a small fixed record set.

pub mod fex;
pub mod filter;
pub mod memo;
pub mod mql;
pub mod node;
pub mod parser;
pub mod sample;
pub mod single;
pub mod text;
pub mod value;
