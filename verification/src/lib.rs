//! Verified cores of a few line-oriented text tools.
//!
//! * [`wc`] counts the lines, words, bytes and characters of a source and
//!   lays the counts out in fixed-width rows, with a totals row.
//! * [`uniq`] collapses runs of adjacent lines that are equal up to
//!   trailing white space, with or without the length of each run.
//! * [`cat`], [`head`] and [`echo`] number lines, cut a source short, and
//!   put words on a line.
//! * [`lines`], [`text`], [`fmt`] and [`source`] hold what these share:
//!   splitting into lines, trimming, decimal numerals in right-aligned
//!   fields, and the token that stands for standard input.
//!
//! Reading and writing are left to the caller: every function here takes
//! plain values and returns plain values.

pub mod cat;
pub mod echo;
pub mod fmt;
pub mod head;
pub mod lines;
pub mod source;
pub mod text;
pub mod uniq;
pub mod wc;
