//! A verified parser for a lightweight, line-oriented markup: lines whose
//! leading run of `=` sigils is followed by whitespace of the same line are
//! headings (the run's length is the heading depth), every other line is a
//! paragraph, and blank lines separate blocks. Parsing produces a [`tree::Tree`] of blocks whose
//! nesting mirrors heading depth; [`html::ToHtml`] renders a tree to HTML.

pub mod html;
pub mod parser;
pub mod scan;
pub mod tree;
