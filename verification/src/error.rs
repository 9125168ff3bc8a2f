use vstd::prelude::*;

verus! {

/// The kind of a runtime value, used in error reports and dispatch decisions.
#[derive(Clone, Copy, Debug, PartialEq, Eq, Structural)]
pub enum Kind {
    Null,
    Bool,
    Number,
    Str,
    List,
    Tuple,
    Dict,
    Iterator,
    Callable,
    Object,
}

/// A binary or unary operation resolved through the dispatch protocol.
#[derive(Clone, Copy, Debug, PartialEq, Eq, Structural)]
pub enum Op {
    Add,
    Subtract,
    Multiply,
    Divide,
    Remainder,
    Less,
    LessOrEqual,
    Greater,
    GreaterOrEqual,
    Equal,
    NotEqual,
    Negate,
    Index,
    Call,
    Display,
    Iterate,
}

/// The place an error was raised or prefixed from, in place of a message string.
#[derive(Clone, Copy, Debug, PartialEq, Eq, Structural)]
pub enum Ctx {
    Chunks,
    Windows,
    Step,
    Reversed,
    StringSplit,
    MapSort,
    MapUpdate,
    MapExtend,
    Sum,
    Product,
    Fold,
    MinMax,
    Generate,
    Intersperse,
    Each,
    Keep,
    TakeWhile,
    Take,
    Skip,
    Count,
    ToList,
    ToMap,
    ToTuple,
    ToString,
    Flatten,
    Enumerate,
    Callable,
    Arithmetic,
    Comparison,
}

/// What a dispatch point expected to find.
#[derive(Clone, Copy, Debug, PartialEq, Eq, Structural)]
pub enum Expectation {
    OfKind(Kind),
    Iterable,
    BoolFromPredicate,
    BoolFromComparison,
    KeyKind,
    PairEntry,
}

/// The error taxonomy of the core: a wrong kind or capability at a dispatch
/// point, a wrong argument shape for a library call, a value outside the
/// accepted domain, a capability an object does not implement, or an opaque
/// fault raised by callable code. `Prefixed` wraps an error with the name of
/// the function that observed it, preserving the original unchanged.
#[derive(Debug, PartialEq, Eq)]
pub enum Error {
    TypeMismatch { expected: Expectation, found: Kind },
    ArgumentShapeMismatch { context: Ctx },
    InvalidArgument { context: Ctx },
    UnsupportedOperation { op: Op, kind: Kind },
    ScriptError { code: i64 },
    Prefixed { context: Ctx, inner: Box<Error> },
}

impl Error {
    /// An independent copy of this error.
    pub fn dup(&self) -> (r: Error)
        ensures
            r == *self,
        decreases self,
    {
        match self {
            Error::TypeMismatch { expected, found } => Error::TypeMismatch {
                expected: *expected,
                found: *found,
            },
            Error::ArgumentShapeMismatch { context } => Error::ArgumentShapeMismatch {
                context: *context,
            },
            Error::InvalidArgument { context } => Error::InvalidArgument { context: *context },
            Error::UnsupportedOperation { op, kind } => Error::UnsupportedOperation {
                op: *op,
                kind: *kind,
            },
            Error::ScriptError { code } => Error::ScriptError { code: *code },
            Error::Prefixed { context, inner } => Error::Prefixed {
                context: *context,
                inner: Box::new(inner.dup()),
            },
        }
    }

    /// Wraps this error with the name of the function that observed it; the
    /// original error is preserved as the inner value.
    pub fn with_prefix(self, context: Ctx) -> (r: Error)
        ensures
            r == (Error::Prefixed { context, inner: Box::new(self) }),
    {
        Error::Prefixed { context, inner: Box::new(self) }
    }

    /// A short label for the error's variant.
    pub fn label(&self) -> (r: &'static str)
    {
        match self {
            Error::TypeMismatch { .. } => "type mismatch",
            Error::ArgumentShapeMismatch { .. } => "argument shape mismatch",
            Error::InvalidArgument { .. } => "invalid argument",
            Error::UnsupportedOperation { .. } => "unsupported operation",
            Error::ScriptError { .. } => "script error",
            Error::Prefixed { .. } => "prefixed error",
        }
    }
}

} // verus!
