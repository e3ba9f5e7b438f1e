//! The core of a small dynamically-typed expression language:
//! a hygienic macro expander over its syntax tree,
//! and the bytecode chunks that its compiler targets.

pub mod number;
pub mod opcode;
pub mod text;
pub mod source;
pub mod span;
pub mod data;
pub mod lambda;
pub mod listing;
pub mod syntax;
pub mod trace;
pub mod ast;
pub mod stamp;
pub mod bindings;
pub mod expansion;
pub mod rule;
pub mod hygiene;
pub mod refusal;
pub mod shape;
