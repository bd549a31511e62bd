//! Expressions, and what they resolve to.

use vstd::prelude::*;

use crate::bytes::Bytes;
use crate::reader_cache::ReaderCache;
use crate::value::{Value, ValueError};

verus! {

/// What the resolution of an expression works with.
pub struct Context<S> {
    /// The CSV readers at hand.
    pub readers: ReaderCache,
    /// What else the expressions of a program read and change.
    pub state: S,
}

/// Why an expression does not resolve to a value.
#[derive(Debug, PartialEq, Eq)]
pub enum ExpressionError {
    /// It failed, for the reason that the message gives.
    Error { message: String },
    /// A value was not of the type that it has to be.
    Value(ValueError),
    /// The program was told to stop, perhaps with a message.
    Abort(Option<String>),
}

/// The outcome of resolving an expression.
pub type Resolved = Result<Value, ExpressionError>;

/// An expression that can be resolved to a value, in a context with a state of type `S`.
pub trait Expression<S> {
    /// Resolving the expression can give `result` and turn the context `before` into
    /// `after`. An expression that does not say so can do anything.
    open spec fn resolves(
        &self,
        before: Context<S>,
        after: Context<S>,
        result: Resolved,
    ) -> bool {
        true
    }

    /// Resolves the expression.
    fn resolve(&self, ctx: &mut Context<S>) -> (result: Resolved)
        ensures
            self.resolves(*old(ctx), *final(ctx), result),
    ;
}

/// A byte string literal, or another expression.
#[derive(Clone, Debug)]
pub enum Expr<E> {
    Literal(Bytes),
    Other(E),
}

impl<S, E: Expression<S>> Expression<S> for Expr<E> {
    /// A literal resolves to its byte string, and leaves the context alone.
    open spec fn resolves(
        &self,
        before: Context<S>,
        after: Context<S>,
        result: Resolved,
    ) -> bool {
        match self {
            Expr::Literal(bytes) => {
                &&& after == before
                &&& result matches Ok(value) && value.is_bytes(bytes@)
            },
            Expr::Other(expression) => expression.resolves(before, after, result),
        }
    }

    fn resolve(&self, ctx: &mut Context<S>) -> (result: Resolved) {
        match self {
            Expr::Literal(bytes) => Ok(Value::Bytes(bytes.clone())),
            Expr::Other(expression) => expression.resolve(ctx),
        }
    }
}

/// The expression that does nothing.
#[derive(Clone, Copy, Debug)]
pub struct Noop;

impl<S> Expression<S> for Noop {
    /// It resolves to no value, and leaves the context alone.
    open spec fn resolves(
        &self,
        before: Context<S>,
        after: Context<S>,
        result: Resolved,
    ) -> bool {
        &&& after == before
        &&& result == Ok::<Value, ExpressionError>(Value::Null)
    }

    fn resolve(&self, ctx: &mut Context<S>) -> (result: Resolved) {
        Ok(Value::Null)
    }
}

} // verus!
