//! Building blocks for tape-based esoteric language interpreters: cell values,
//! addresses, lazily growing tapes, a tape model with a pointer, a compiler for the
//! eight-symbol language family and step-wise interpreter engines.

pub mod address;
pub mod interpreter;
pub mod naive;
pub mod program;
pub mod tape;
pub mod tape_model;
pub mod value;
