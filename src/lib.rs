//! Aligns the words of lines of text into columns.
//!
//! Each line is split into words (a quote delimiter keeps blanks inside a word), every
//! column is measured over the whole input, and each line is written out again with its
//! words padded to the width of their columns.
pub mod dyn_vec;
pub mod layout;
pub mod laws;
pub mod positioning;
pub mod width;
pub mod words;
