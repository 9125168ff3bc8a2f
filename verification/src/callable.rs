use vstd::prelude::*;

use crate::error::{Ctx, Error, Expectation, Kind};
use crate::value::{keyable, kind_of, lemma_seq_dv_index, lemma_seq_dv_len, seq_dv, ValM, Value};

verus! {

/// The closed set of native functions a Callable value may hold. Each is a
/// pure function of its arguments, so a reentrant invocation shares program
/// state with the driving execution but needs no separate call stack:
/// `run_callable` is the whole execution context.
#[derive(Debug)]
pub enum Callable {
    /// Returns its single argument unchanged.
    Identity,
    /// Number -> Number: adds a constant, checked.
    AddConst(i64),
    /// Number -> Number: multiplies by a constant, checked.
    MulConst(i64),
    /// Number -> Bool: strictly less than a constant.
    LessThanConst(i64),
    /// Number -> Bool: strictly greater than a constant.
    GreaterThanConst(i64),
    /// Any -> Bool: whether the argument is a Number.
    IsNumber,
    /// Any arguments -> a fixed value; usable with no arguments at all.
    ConstFn(Box<Value>),
    /// Raises a script error with the given code, whatever the arguments.
    RaiseError(i64),
    /// Returns its single argument, except that it raises a script error
    /// with the given code when the argument equals the stored value; the
    /// comparison is decided for keyable values and never fires otherwise.
    RaiseOn(Box<Value>, i64),
    /// Two arguments -> the first (a key function selecting the map key).
    FirstArg,
    /// Two arguments -> the second (a key function selecting the map value).
    SecondArg,
    /// As `SecondArg`, except that it raises a script error with the given
    /// code when the second argument equals the stored value.
    SecondArgRaiseOn(Box<Value>, i64),
    /// Any single argument -> Bool: whether it equals the stored value; the
    /// comparison is decided for keyable values and answers false otherwise.
    EqualsTo(Box<Value>),
}

/// The model of a callable.
pub ghost enum CallM {
    Identity,
    AddConst(i64),
    MulConst(i64),
    LessThanConst(i64),
    GreaterThanConst(i64),
    IsNumber,
    ConstFn(Box<ValM>),
    RaiseError(i64),
    RaiseOn(Box<ValM>, i64),
    FirstArg,
    SecondArg,
    SecondArgRaiseOn(Box<ValM>, i64),
    EqualsTo(Box<ValM>),
}

impl Callable {
    /// The model of this callable.
    pub open spec fn dv(self) -> CallM
        decreases self,
    {
        match self {
            Callable::Identity => CallM::Identity,
            Callable::AddConst(c) => CallM::AddConst(c),
            Callable::MulConst(c) => CallM::MulConst(c),
            Callable::LessThanConst(c) => CallM::LessThanConst(c),
            Callable::GreaterThanConst(c) => CallM::GreaterThanConst(c),
            Callable::IsNumber => CallM::IsNumber,
            Callable::ConstFn(v) => CallM::ConstFn(Box::new(v.dv())),
            Callable::RaiseError(code) => CallM::RaiseError(code),
            Callable::RaiseOn(v, code) => CallM::RaiseOn(Box::new(v.dv()), code),
            Callable::FirstArg => CallM::FirstArg,
            Callable::SecondArg => CallM::SecondArg,
            Callable::SecondArgRaiseOn(v, code) => CallM::SecondArgRaiseOn(
                Box::new(v.dv()),
                code,
            ),
            Callable::EqualsTo(v) => CallM::EqualsTo(Box::new(v.dv())),
        }
    }
}

/// The wrong-arity error every callable reports.
pub open spec fn shape_err() -> Result<ValM, Error> {
    Err(Error::ArgumentShapeMismatch { context: Ctx::Callable })
}

/// Shared shape of the unary numeric callables: one Number argument, a
/// checked integer result.
pub open spec fn one_number_op(args: Seq<ValM>, r: int) -> Result<ValM, Error>
    recommends
        args.len() == 1,
{
    match args[0] {
        ValM::Num(_) => {
            if i64::MIN <= r <= i64::MAX {
                Ok(ValM::Num(r as i64))
            } else {
                Err(Error::InvalidArgument { context: Ctx::Arithmetic })
            }
        },
        _ => Err(Error::TypeMismatch {
            expected: Expectation::OfKind(Kind::Number),
            found: kind_of(args[0]),
        }),
    }
}

/// What invoking a callable returns for given arguments. Callables are pure:
/// the same arguments always give the same result.
pub open spec fn call_spec(f: CallM, args: Seq<ValM>) -> Result<ValM, Error> {
    match f {
        CallM::Identity => if args.len() == 1 {
            Ok(args[0])
        } else {
            shape_err()
        },
        CallM::AddConst(c) => if args.len() == 1 {
            one_number_op(args, num_of(args[0]) + c)
        } else {
            shape_err()
        },
        CallM::MulConst(c) => if args.len() == 1 {
            one_number_op(args, num_of(args[0]) * c)
        } else {
            shape_err()
        },
        CallM::LessThanConst(c) => if args.len() == 1 {
            match args[0] {
                ValM::Num(n) => Ok(ValM::Bool(n < c)),
                _ => Err(Error::TypeMismatch {
                    expected: Expectation::OfKind(Kind::Number),
                    found: kind_of(args[0]),
                }),
            }
        } else {
            shape_err()
        },
        CallM::GreaterThanConst(c) => if args.len() == 1 {
            match args[0] {
                ValM::Num(n) => Ok(ValM::Bool(n > c)),
                _ => Err(Error::TypeMismatch {
                    expected: Expectation::OfKind(Kind::Number),
                    found: kind_of(args[0]),
                }),
            }
        } else {
            shape_err()
        },
        CallM::IsNumber => if args.len() == 1 {
            Ok(ValM::Bool(args[0] is Num))
        } else {
            shape_err()
        },
        CallM::ConstFn(v) => Ok(*v),
        CallM::RaiseError(code) => Err(Error::ScriptError { code }),
        CallM::RaiseOn(v, code) => if args.len() == 1 {
            if keyable(args[0]) && keyable(*v) && args[0] == *v {
                Err(Error::ScriptError { code })
            } else {
                Ok(args[0])
            }
        } else {
            shape_err()
        },
        CallM::FirstArg => if args.len() == 2 {
            Ok(args[0])
        } else {
            shape_err()
        },
        CallM::SecondArg => if args.len() == 2 {
            Ok(args[1])
        } else {
            shape_err()
        },
        CallM::SecondArgRaiseOn(v, code) => if args.len() == 2 {
            if keyable(args[1]) && keyable(*v) && args[1] == *v {
                Err(Error::ScriptError { code })
            } else {
                Ok(args[1])
            }
        } else {
            shape_err()
        },
        CallM::EqualsTo(v) => if args.len() == 1 {
            Ok(ValM::Bool(crate::value::key_match(args[0], *v)))
        } else {
            shape_err()
        },
    }
}

/// The integer behind a Number model; zero for the other kinds.
pub open spec fn num_of(m: ValM) -> int {
    match m {
        ValM::Num(n) => n as int,
        _ => 0,
    }
}

impl Callable {
    /// An independent copy of this callable, preserving the model.
    pub fn dup(&self) -> (r: Callable)
        ensures
            r.dv() == self.dv(),
        decreases self,
    {
        match self {
            Callable::Identity => Callable::Identity,
            Callable::AddConst(c) => Callable::AddConst(*c),
            Callable::MulConst(c) => Callable::MulConst(*c),
            Callable::LessThanConst(c) => Callable::LessThanConst(*c),
            Callable::GreaterThanConst(c) => Callable::GreaterThanConst(*c),
            Callable::IsNumber => Callable::IsNumber,
            Callable::ConstFn(v) => Callable::ConstFn(Box::new(v.dup())),
            Callable::RaiseError(code) => Callable::RaiseError(*code),
            Callable::RaiseOn(v, code) => Callable::RaiseOn(Box::new(v.dup()), *code),
            Callable::FirstArg => Callable::FirstArg,
            Callable::SecondArg => Callable::SecondArg,
            Callable::SecondArgRaiseOn(v, code) => Callable::SecondArgRaiseOn(
                Box::new(v.dup()),
                *code,
            ),
            Callable::EqualsTo(v) => Callable::EqualsTo(Box::new(v.dup())),
        }
    }
}

/// Invokes a callable on the given arguments: the whole reentrant execution
/// context of the native-function set. The result is exactly what
/// `call_spec` says for the models of the arguments.
pub fn run_callable(f: &Callable, args: Vec<Value>) -> (r: Result<Value, Error>)
    ensures
        match r {
            Ok(v) => call_spec(f.dv(), seq_dv(args@)) == Ok::<ValM, Error>(v.dv()),
            Err(e) => call_spec(f.dv(), seq_dv(args@)) == Err::<ValM, Error>(e),
        },
{
    let ghost gargs = seq_dv(args@);
    proof {
        lemma_seq_dv_len(args@);
        if args@.len() > 0 {
            lemma_seq_dv_index(args@, 0);
        }
        if args@.len() > 1 {
            lemma_seq_dv_index(args@, 1);
        }
    }
    let mut args = args;
    match f {
        Callable::Identity => {
            if args.len() == 1 {
                Ok(args.pop().unwrap())
            } else {
                Err(Error::ArgumentShapeMismatch { context: Ctx::Callable })
            }
        },
        Callable::AddConst(c) => {
            if args.len() == 1 {
                match &args[0] {
                    Value::Number(n) => match n.checked_add(*c) {
                        Some(x) => Ok(Value::Number(x)),
                        None => Err(Error::InvalidArgument { context: Ctx::Arithmetic }),
                    },
                    other => Err(Error::TypeMismatch {
                        expected: Expectation::OfKind(Kind::Number),
                        found: other.kind(),
                    }),
                }
            } else {
                Err(Error::ArgumentShapeMismatch { context: Ctx::Callable })
            }
        },
        Callable::MulConst(c) => {
            if args.len() == 1 {
                match &args[0] {
                    Value::Number(n) => match n.checked_mul(*c) {
                        Some(x) => Ok(Value::Number(x)),
                        None => Err(Error::InvalidArgument { context: Ctx::Arithmetic }),
                    },
                    other => Err(Error::TypeMismatch {
                        expected: Expectation::OfKind(Kind::Number),
                        found: other.kind(),
                    }),
                }
            } else {
                Err(Error::ArgumentShapeMismatch { context: Ctx::Callable })
            }
        },
        Callable::LessThanConst(c) => {
            if args.len() == 1 {
                match &args[0] {
                    Value::Number(n) => Ok(Value::Bool(*n < *c)),
                    other => Err(Error::TypeMismatch {
                        expected: Expectation::OfKind(Kind::Number),
                        found: other.kind(),
                    }),
                }
            } else {
                Err(Error::ArgumentShapeMismatch { context: Ctx::Callable })
            }
        },
        Callable::GreaterThanConst(c) => {
            if args.len() == 1 {
                match &args[0] {
                    Value::Number(n) => Ok(Value::Bool(*n > *c)),
                    other => Err(Error::TypeMismatch {
                        expected: Expectation::OfKind(Kind::Number),
                        found: other.kind(),
                    }),
                }
            } else {
                Err(Error::ArgumentShapeMismatch { context: Ctx::Callable })
            }
        },
        Callable::IsNumber => {
            if args.len() == 1 {
                let is_num = match &args[0] {
                    Value::Number(_) => true,
                    _ => false,
                };
                Ok(Value::Bool(is_num))
            } else {
                Err(Error::ArgumentShapeMismatch { context: Ctx::Callable })
            }
        },
        Callable::ConstFn(v) => Ok(v.dup()),
        Callable::RaiseError(code) => Err(Error::ScriptError { code: *code }),
        Callable::RaiseOn(v, code) => {
            if args.len() == 1 {
                let a = args.pop().unwrap();
                if a.key_eq(v) {
                    Err(Error::ScriptError { code: *code })
                } else {
                    Ok(a)
                }
            } else {
                Err(Error::ArgumentShapeMismatch { context: Ctx::Callable })
            }
        },
        Callable::FirstArg => {
            if args.len() == 2 {
                let _second = args.pop().unwrap();
                Ok(args.pop().unwrap())
            } else {
                Err(Error::ArgumentShapeMismatch { context: Ctx::Callable })
            }
        },
        Callable::SecondArg => {
            if args.len() == 2 {
                Ok(args.pop().unwrap())
            } else {
                Err(Error::ArgumentShapeMismatch { context: Ctx::Callable })
            }
        },
        Callable::SecondArgRaiseOn(v, code) => {
            if args.len() == 2 {
                let b = args.pop().unwrap();
                if b.key_eq(v) {
                    Err(Error::ScriptError { code: *code })
                } else {
                    Ok(b)
                }
            } else {
                Err(Error::ArgumentShapeMismatch { context: Ctx::Callable })
            }
        },
        Callable::EqualsTo(v) => {
            if args.len() == 1 {
                let a = args.pop().unwrap();
                Ok(Value::Bool(a.key_eq(v)))
            } else {
                Err(Error::ArgumentShapeMismatch { context: Ctx::Callable })
            }
        },
    }
}

} // verus!
