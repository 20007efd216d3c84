//! Relational-algebra execution core of a Datalog-style query engine over an
//! entity–attribute–value triple store and recursively derived relations.
pub mod value;
pub mod tuple;
pub mod error;
pub mod expr;
pub mod store;
pub mod relation;
pub mod laws;
pub mod semantics;
pub mod iter;
pub mod describe;
