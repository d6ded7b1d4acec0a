//! Lazy traversal engines over a parsed query-language document.
//!
//! Given a document or a single selection subtree, the engines in
//! [`visitor`] produce flattened, order-preserving sequences of fields and
//! directives without recursive descent: each engine keeps an explicit stack
//! of sibling cursors and hands out one item per step.  The tree itself is
//! immutable and only borrowed; fragment spreads are never followed, though
//! their own directives are still visible to directive iteration.

pub mod ast;
pub mod laws;
pub mod visitor;
