//! Reading and writing recfiles: plain-text files of records made of
//! `name: value` fields, with comments, joined physical lines, field
//! continuation lines and `%rec` record-type declarations.

pub mod contlines;
pub mod parser;
pub mod record;
pub mod text;

pub use record::{RecError, RecIterator, Recfile, Record};
pub mod laws;
