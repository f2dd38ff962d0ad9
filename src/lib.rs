//! Spells: a small scripting language compiled to a flat bytecode, and the machine that
//! runs it against an entity's energy budget.

pub mod codes;
pub mod text;
pub mod registry;
pub mod numbers;
pub mod eval;
pub mod lexer;
pub mod compiler;
pub mod catalogue;
pub mod vm;
pub mod program;
pub mod logic;
