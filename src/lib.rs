//! A streaming parser for the scalar values of a TOML-like configuration
//! format: strings, integers, floats, booleans and date/time literals,
//! together with the comment rules that bound a value on its line.
//!
//! Every scanner reads from a [`reader::Supplier`] one character at a time,
//! and its result is stated exactly by a spec function of the characters it
//! was given ([`scan::Scan`]): the value it reads and how many characters it
//! takes, or the error and the offset at which it is found.
pub mod chars;
pub mod reader;
pub mod errors;
pub mod scan;
pub mod text;
pub mod string;
pub mod number;
pub mod boolean;
pub mod datetime;
pub mod common;
pub mod parsers;
pub mod keys;
pub mod laws;
