//! Errors that abort a query.
use vstd::prelude::*;
use crate::value::{DataValue, Symbol, Val};

verus! {

/// A range of the query's source text.
#[derive(PartialEq, Eq, Structural, Clone, Copy, Debug)]
pub struct SourceSpan(pub usize, pub usize);

/// Why a query failed.
#[derive(Debug)]
pub enum QueryError {
    /// An expression refers to a variable that was not resolved to a column.
    UnboundVariable(Symbol),
    /// A predicate evaluated to something other than a boolean.
    NotABoolean,
    /// A list stands where a single value is needed.
    ListNotScalar,
    /// A value used in an entity position was not an entity.
    EntityIdExpected(DataValue, SourceSpan),
    /// Spread unification did not produce a list.
    BadSpreadUnification(SourceSpan),
}

/// The mathematical model of a `QueryError`.
pub enum QErr {
    UnboundVariable(Symbol),
    NotABoolean,
    ListNotScalar,
    EntityIdExpected(Val, SourceSpan),
    BadSpreadUnification(SourceSpan),
}

impl View for QueryError {
    type V = QErr;

    open spec fn view(&self) -> QErr {
        match self {
            QueryError::UnboundVariable(s) => QErr::UnboundVariable(*s),
            QueryError::NotABoolean => QErr::NotABoolean,
            QueryError::ListNotScalar => QErr::ListNotScalar,
            QueryError::EntityIdExpected(v, s) => QErr::EntityIdExpected(v@, *s),
            QueryError::BadSpreadUnification(s) => QErr::BadSpreadUnification(*s),
        }
    }
}

/// The description of each kind of error.
pub open spec fn message_of(e: QErr) -> Seq<char> {
    match e {
        QErr::UnboundVariable(_) => "unbound variable in expression"@,
        QErr::NotABoolean => "predicate must evaluate to a boolean"@,
        QErr::ListNotScalar => "a list cannot stand for a single value"@,
        QErr::EntityIdExpected(_, _) => "found a value unacceptable for an entity id while iterating"@,
        QErr::BadSpreadUnification(_) => "invalid spread unification: it requires a list at the right"@,
    }
}

impl QueryError {
    /// A short description of the error.
    pub fn message(&self) -> (r: String)
        ensures
            r@ == message_of(self@),
    {
        match self {
            QueryError::UnboundVariable(_) => String::from_str("unbound variable in expression"),
            QueryError::NotABoolean => String::from_str("predicate must evaluate to a boolean"),
            QueryError::ListNotScalar => String::from_str("a list cannot stand for a single value"),
            QueryError::EntityIdExpected(_, _) => String::from_str(
                "found a value unacceptable for an entity id while iterating",
            ),
            QueryError::BadSpreadUnification(_) => String::from_str(
                "invalid spread unification: it requires a list at the right",
            ),
        }
    }
}

} // verus!
