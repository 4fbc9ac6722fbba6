//! A verified positional range extraction engine, in the style of `cut`:
//! a range-specification parser, a lazy range index iterator, and byte,
//! character and field extractors over one line of text. Beside it stand a
//! few small verified text utilities: line statistics, tail-position
//! arithmetic, calendar date parsing, permission-bit rendering and fortune
//! handling.

pub mod date;
pub mod extract;
pub mod fortune;
pub mod mode;
pub mod numbers;
pub mod ranges;
pub mod stats;
pub mod tail;
pub mod text;
