//! An in-memory deductive knowledge store: ground facts and Horn-style rules,
//! forward chaining on assertion, justification-tracked retraction, membership
//! questions and pattern queries.

pub mod construction;
pub mod equality;
pub mod error;
pub mod index;
pub mod inference;
pub mod knowledge_base;
pub mod laws;
pub mod parser;
pub mod retraction;
pub mod sequences;
pub mod statement;
pub mod symbols;
pub mod unify;
