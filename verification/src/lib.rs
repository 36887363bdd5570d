//! A dense integer id space for block states.
//!
//! A block *schema* declares a finite set of block kinds, each with an
//! ordered list of named properties over finite, ordered value domains and a
//! reserved contiguous range of state ids.  The [`catalog::Catalog`] compiles
//! such a schema into immutable lookup tables: interned identifiers for kind
//! names, property names and value strings, and per-kind mixed-radix stride
//! tables.  A [`state::BlockState`] is one fully specified assignment,
//! represented as a single bounded integer; `get` and `set` recover and
//! rewrite individual property values with pure arithmetic.  The wire codec
//! carries that integer as a variable-length integer.

pub mod catalog;
pub mod codec;
pub mod face;
pub mod radix;
pub mod render;
pub mod schema;
pub mod state;
pub mod text;
