//! A compiler front end and code generator for a tiny subset of C: a single
//! `main` function whose body is one `return <integer literal>;` statement.
//! The pipeline runs in three verified stages: lexical analysis, recursive
//! descent parsing into a fixed-shape syntax tree, and emission of textual
//! x86 assembly.

pub mod ast;
pub mod codegen;
pub mod lexer;
pub mod pipeline;
