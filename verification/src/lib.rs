//! A hash-consed, canonicalizing store for regular-expression syntax trees
//! over a finite byte alphabet.
//!
//! The store deduplicates structurally identical expressions, so that two
//! semantically identical expressions (under the normalization laws of the
//! smart constructors) receive the same 32-bit identifier, and identifier
//! equality is a sound language-equality test.

pub mod ast;
pub mod laws;
pub mod hashcons;
pub mod model;

pub use ast::byteset_contains;
pub use ast::Expr;
pub use ast::ExprFlags;
pub use ast::ExprRef;
pub use ast::ExprSet;
