//! A single-pass bytecode compiler and stack machine for a small
//! dynamically-typed expression language.
//!
//! Source text is tokenised by [`scanner::Scanner`], parsed by precedence
//! climbing in [`compiler::Compiler`], which emits bytecode straight into a
//! [`chunk::Chunk`], and executed by [`vm::VM`].
//!
//! [`grammar`] says what the expressions of the language are, and proves that
//! the sources that compile are these expressions, each to its code;
//! [`evaluation`] says what an expression means, and proves that the machine
//! computes it.
//!
//! Numbers are IEEE-754 binary64 values, held as their 64-bit patterns. This
//! crate holds no floating-point code: it negates, compares and tests
//! numbers on their bit patterns, and hands the four arithmetic
//! operations and the reading of decimal literals to its host.
pub mod chunk;
pub mod compiler;
pub mod debug;
pub mod evaluation;
pub mod grammar;
pub mod scanner;
pub mod text;
pub mod value;
pub mod vm;
