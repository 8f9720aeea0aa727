//! A compiler from a small pattern language to standalone matching programs.
//!
//! A pattern is built from alphanumeric literals, parenthesised groups and the
//! two postfix quantifiers `*` and `+`. The [`parser`] turns pattern text into
//! a tree of [`ast::Regex`] nodes, as [`grammar`] defines it, and [`codegen`]
//! writes one matching function for every node of that tree, as [`program`]
//! defines them. [`laws`] and [`numbering`] hold what is proved of every
//! parse and of every generated program, and [`cursor`] ties the bytes that
//! the parser steps over to the characters that the grammar speaks of.

pub mod ast;
pub mod cursor;
pub mod grammar;
pub mod tree;
pub mod parser;
pub mod laws;
pub mod text;
pub mod program;
pub mod numbering;
pub mod codegen;
pub mod artifact;
