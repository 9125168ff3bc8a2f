use vstd::prelude::*;

use crate::callable::{call_spec, run_callable, CallM, Callable};
use crate::error::{Ctx, Error, Expectation, Op};
use crate::iter::is_error;
use crate::iter::{advances_to, each_out, nonerr, keep_filter, lemma_filter_head_false, lemma_filter_head_true, lemma_stream_pre, lemma_stream_pre_shift, stream_pre, val_of, Iter, IterM};
use crate::dict::{Dict, DictM};
use crate::object::ObjInstance;
use crate::ops::{bin_spec, run_binary_op};
use crate::output::{collapse, collect_pair, lemma_out_seq_dv_push, out_seq_dv, Out, OutM};
use crate::value::{
    keyable, kind_of, lemma_seq_dv_index, lemma_seq_dv_len, lemma_seq_dv_push, seq_dv, ValM, Value,
};

verus! {

/// Whether a value satisfies the iterable capability: ordered containers,
/// maps, strings, live handles, and object instances that opt in.
pub open spec fn iterable(m: ValM) -> bool {
    match m {
        ValM::List(_) => true,
        ValM::Tuple(_) => true,
        ValM::Dict(_) => true,
        ValM::Str(_) => true,
        ValM::Iter(_) => true,
        ValM::Obj(o) => o is Num,
        _ => false,
    }
}

/// The handle the "make iterator" entry point wraps an iterable value into.
/// A numeric object instance iterates over the three numbers after its own,
/// saturating at the machine bound.
pub open spec fn iter_model(m: ValM) -> IterM {
    match m {
        ValM::List(s) => IterM::OfList { items: s, front: 0, back: s.len() as int },
        ValM::Tuple(s) => IterM::OfList { items: s, front: 0, back: s.len() as int },
        ValM::Dict(d) => IterM::OfMap { entries: d.entries, front: 0, back: d.entries.len() as int },
        ValM::Str(cs) => IterM::GraphemesIter { chars: cs, pos: 0 },
        ValM::Iter(b) => *b,
        ValM::Obj(ObjInstance::Num(n)) => IterM::OfObject {
            cur: if n < i64::MAX {
                n + 1
            } else {
                i64::MAX as int
            },
            end: if n <= i64::MAX - 4 {
                n + 4
            } else {
                i64::MAX as int
            },
        },
        _ => IterM::Exhausted,
    }
}

/// The error a non-iterable value is reported with.
pub open spec fn not_iterable_err(m: ValM) -> Error {
    Error::TypeMismatch { expected: Expectation::Iterable, found: kind_of(m) }
}

/// Wraps an iterable value into an iterator handle; a non-iterable value is
/// rejected with a kind mismatch.
pub fn make_iterator(v: Value) -> (r: Result<Iter, Error>)
    ensures
        iterable(v.dv()) ==> r is Ok && r->Ok_0.dv() == iter_model(v.dv()),
        !iterable(v.dv()) ==> r is Err && r->Err_0 == not_iterable_err(v.dv()),
{
    match v {
        Value::List(items) => {
            proof {
                lemma_seq_dv_len(items@);
            }
            let back = items.len();
            Ok(Iter::OfList { items, front: 0, back })
        },
        Value::Tuple(items) => {
            proof {
                lemma_seq_dv_len(items@);
            }
            let back = items.len();
            Ok(Iter::OfList { items, front: 0, back })
        },
        Value::Dict(d) => {
            proof {
                crate::value::lemma_entry_seq_dv_len(d.entries@);
            }
            let back = d.entries.len();
            Ok(Iter::OfMap { entries: d.entries, front: 0, back })
        },
        Value::Str(s) => Ok(Iter::GraphemesIter(crate::string_iters::Graphemes::new(s))),
        Value::Iterator(b) => Ok(*b),
        Value::Object(ObjInstance::Num(n)) => {
            let cur = if n < i64::MAX {
                n + 1
            } else {
                i64::MAX
            };
            let end = if n <= i64::MAX - 4 {
                n + 4
            } else {
                i64::MAX
            };
            Ok(Iter::OfObject { cur, end })
        },
        other => Err(Error::TypeMismatch {
            expected: Expectation::Iterable,
            found: other.kind(),
        }),
    }
}

/// What fully draining a stream produces: the collapsed values in order, or
/// the first fault.
pub open spec fn drain_vals(s: Seq<OutM>) -> Result<Seq<ValM>, Error>
    decreases s.len(),
{
    if s.len() == 0 {
        Ok(Seq::empty())
    } else {
        let c = collapse(s[0]);
        match c {
            OutM::E(e) => Err(e),
            _ => match drain_vals(s.drop_first()) {
                Ok(t) => Ok(seq![val_of(c)] + t),
                Err(e) => Err(e),
            },
        }
    }
}

/// A successful drain returns one value per stream output.
pub proof fn lemma_drain_ok_len(s: Seq<OutM>)
    requires
        drain_vals(s) is Ok,
    ensures
        drain_vals(s)->Ok_0.len() == s.len(),
    decreases s.len(),
{
    if s.len() > 0 {
        lemma_drain_ok_len(s.drop_first());
    }
}

/// A successful drain means no output in the stream was a fault.
pub proof fn lemma_drain_ok_no_errors(s: Seq<OutM>)
    requires
        drain_vals(s) is Ok,
    ensures
        forall|k: int| 0 <= k < s.len() ==> !(#[trigger] collapse(s[k]) is E),
    decreases s.len(),
{
    if s.len() > 0 {
        lemma_drain_ok_no_errors(s.drop_first());
        assert forall|k: int| 0 <= k < s.len() implies !(#[trigger] collapse(s[k]) is E) by {
            if k > 0 {
                assert(s.drop_first()[k - 1] == s[k]);
            }
        }
    }
}

/// A stream of plain values drains to exactly those values.
pub proof fn lemma_drain_values(s: Seq<OutM>)
    requires
        forall|k: int| 0 <= k < s.len() ==> #[trigger] s[k] is V,
    ensures
        drain_vals(s) == Ok::<Seq<ValM>, Error>(Seq::new(s.len(), |k: int| val_of(s[k]))),
    decreases s.len(),
{
    if s.len() == 0 {
        assert(Seq::new(s.len(), |k: int| val_of(s[k])) =~= Seq::<ValM>::empty());
    } else {
        assert(s[0] is V);
        assert forall|k: int| 0 <= k < s.drop_first().len() implies #[trigger] s.drop_first()[k]
            is V by {
            assert(s.drop_first()[k] == s[k + 1]);
        }
        lemma_drain_values(s.drop_first());
        assert(seq![val_of(collapse(s[0]))] + Seq::new(
            s.drop_first().len(),
            |k: int| val_of(s.drop_first()[k]),
        ) =~= Seq::new(s.len(), |k: int| val_of(s[k])));
    }
}

/// Consuming one non-fault output composes with draining the rest.
pub proof fn lemma_drain_step(pre: IterM, post: IterM)
    requires
        pre.modeled(),
        pre.mlen() is Some,
        pre.rem() >= 1,
        !(collapse(pre.mat(0)) is E),
        advances_to(pre, post),
    ensures
        drain_vals(pre.stream()) == (match drain_vals(post.stream()) {
            Ok(t) => Ok::<Seq<ValM>, Error>(seq![val_of(collapse(pre.mat(0)))] + t),
            Err(e) => Err::<Seq<ValM>, Error>(e),
        }),
{
    assert(pre.stream().len() == pre.rem());
    assert(pre.stream()[0] == pre.mat(0));
    assert(pre.stream().drop_first() =~= post.stream());
}

/// A fault at the head makes the whole drain that fault.
pub proof fn lemma_drain_err(pre: IterM, e: Error)
    requires
        pre.modeled(),
        pre.mlen() is Some,
        pre.rem() >= 1,
        collapse(pre.mat(0)) == OutM::E(e),
    ensures
        drain_vals(pre.stream()) == Err::<Seq<ValM>, Error>(e),
{
    assert(pre.stream()[0] == pre.mat(0));
}

/// Drains a handle fully into the collapsed values, stopping at the first
/// fault, pre-sizing from the handle's lower size bound. A stream that
/// outlasts the machine-sized step budget is reported as an invalid
/// argument; a finite modeled stream within the budget never is.
#[verifier::loop_isolation(false)]
pub fn drain_to_vec(it: Iter, ctx: Ctx) -> (r: Result<Vec<Value>, Error>)
    ensures
        it.dv().finite() && it.dv().rem() < usize::MAX ==> match drain_vals(it.dv().stream()) {
            Ok(vs) => r is Ok && seq_dv(r->Ok_0@) == vs,
            Err(e) => r is Err && r->Err_0 == e,
        },
{
    let ghost orig = it.dv();
    let (low, _) = it.size_hint();
    let mut out: Vec<Value> = Vec::with_capacity(low);
    let mut cur = it;
    let mut budget: usize = usize::MAX;
    loop
        invariant
            orig.finite() && orig.rem() < usize::MAX ==> {
                &&& cur.dv().modeled()
                &&& cur.dv().mlen() is Some
                &&& cur.dv().rem() < budget
                &&& match drain_vals(cur.dv().stream()) {
                    Ok(t) => drain_vals(orig.stream()) == Ok::<Seq<ValM>, Error>(
                        seq_dv(out@) + t,
                    ),
                    Err(e) => drain_vals(orig.stream()) == Err::<Seq<ValM>, Error>(e),
                }
            },
        decreases budget,
    {
        if budget == 0 {
            return Err(Error::InvalidArgument { context: ctx });
        }
        budget = budget - 1;
        let ghost pre = cur.dv();
        let step = cur.next();
        match step {
            None => {
                proof {
                    if orig.finite() && orig.rem() < usize::MAX {
                        assert(pre.stream() =~= Seq::<OutM>::empty());
                        assert(seq_dv(out@) + Seq::<ValM>::empty() =~= seq_dv(out@));
                    }
                }
                return Ok(out);
            },
            Some(o) => {
                match collect_pair(o) {
                    Out::Error(e) => {
                        proof {
                            if orig.finite() && orig.rem() < usize::MAX {
                                lemma_drain_err(pre, e);
                            }
                        }
                        return Err(e);
                    },
                    Out::Value(v) => {
                        proof {
                            if orig.finite() && orig.rem() < usize::MAX {
                                lemma_drain_step(pre, cur.dv());
                                lemma_seq_dv_push(out@, v);
                                assert((seq_dv(out@) + seq![v.dv()]) =~= seq_dv(
                                    out@.push(v),
                                ));
                            }
                        }
                        let ghost prev_vals = seq_dv(out@);
                        out.push(v);
                        proof {
                            if orig.finite() && orig.rem() < usize::MAX {
                                match drain_vals(cur.dv().stream()) {
                                    Ok(t) => {
                                        assert((prev_vals + (seq![v.dv()] + t)) =~= (seq_dv(
                                            out@,
                                        ) + t));
                                    },
                                    Err(_) => {},
                                }
                            }
                        }
                    },
                    Out::ValuePair(a, b) => {
                        proof {
                            assert(false);
                        }
                        return Err(Error::InvalidArgument { context: ctx });
                    },
                }
            },
        }
    }
}

/// Drains an iterable value fully into a List, pre-sizing the destination;
/// the first fault aborts with that fault and no partial result.
pub fn to_list(v: Value) -> (r: Result<Value, Error>)
    ensures
        !iterable(v.dv()) ==> r is Err && r->Err_0 == not_iterable_err(v.dv()),
        iterable(v.dv()) && iter_model(v.dv()).finite() && iter_model(v.dv()).rem() < usize::MAX ==> match drain_vals(iter_model(v.dv()).stream()) {
            Ok(vs) => r is Ok && r->Ok_0.dv() == ValM::List(vs),
            Err(e) => r is Err && r->Err_0 == e,
        },
{
    match make_iterator(v) {
        Err(e) => Err(e),
        Ok(it) => match drain_to_vec(it, Ctx::ToList) {
            Ok(vs) => Ok(Value::List(vs)),
            Err(e) => Err(e),
        },
    }
}

/// Drains an iterable value fully into a Tuple.
pub fn to_tuple(v: Value) -> (r: Result<Value, Error>)
    ensures
        !iterable(v.dv()) ==> r is Err && r->Err_0 == not_iterable_err(v.dv()),
        iterable(v.dv()) && iter_model(v.dv()).finite() && iter_model(v.dv()).rem() < usize::MAX ==> match drain_vals(iter_model(v.dv()).stream()) {
            Ok(vs) => r is Ok && r->Ok_0.dv() == ValM::Tuple(vs),
            Err(e) => r is Err && r->Err_0 == e,
        },
{
    match make_iterator(v) {
        Err(e) => Err(e),
        Ok(it) => match drain_to_vec(it, Ctx::ToTuple) {
            Ok(vs) => Ok(Value::Tuple(vs)),
            Err(e) => Err(e),
        },
    }
}

/// What counting an iterable returns: the number of outputs, or the first
/// fault, with a count beyond the machine range rejected.
pub open spec fn count_spec(m: ValM) -> Result<ValM, Error> {
    match drain_vals(iter_model(m).stream()) {
        Ok(vs) => if vs.len() <= i64::MAX {
            Ok(ValM::Num(vs.len() as i64))
        } else {
            Err(Error::InvalidArgument { context: Ctx::Count })
        },
        Err(e) => Err(e),
    }
}

/// Counts the outputs of an iterable value; the first fault aborts.
pub fn count(v: Value) -> (r: Result<Value, Error>)
    ensures
        !iterable(v.dv()) ==> r is Err && r->Err_0 == not_iterable_err(v.dv()),
        iterable(v.dv()) && iter_model(v.dv()).finite() && iter_model(v.dv()).rem() < usize::MAX ==> match count_spec(v.dv()) {
            Ok(v) => r is Ok && r->Ok_0.dv() == v,
            Err(e) => r is Err && r->Err_0 == e,
        },
{
    match make_iterator(v) {
        Err(e) => Err(e),
        Ok(it) => match drain_to_vec(it, Ctx::Count) {
            Ok(vs) => {
                proof {
                    lemma_seq_dv_len(vs@);
                }
                if vs.len() as u64 <= i64::MAX as u64 {
                    Ok(Value::Number(vs.len() as i64))
                } else {
                    Err(Error::InvalidArgument { context: Ctx::Count })
                }
            },
            Err(e) => Err(e),
        },
    }
}

/// What a sequential left fold produces: a fault from upstream or from the
/// folding callable aborts immediately with that fault.
pub open spec fn fold_vals(f: CallM, acc: ValM, s: Seq<OutM>) -> Result<ValM, Error>
    decreases s.len(),
{
    if s.len() == 0 {
        Ok(acc)
    } else {
        let c = collapse(s[0]);
        match c {
            OutM::E(e) => Err(e),
            _ => match call_spec(f, seq![acc, val_of(c)]) {
                Ok(a2) => fold_vals(f, a2, s.drop_first()),
                Err(e) => Err(e),
            },
        }
    }
}

/// One non-fault fold step composes.
proof fn lemma_fold_step(f: CallM, acc: ValM, pre: IterM, post: IterM)
    requires
        pre.modeled(),
        pre.mlen() is Some,
        pre.rem() >= 1,
        !(collapse(pre.mat(0)) is E),
        advances_to(pre, post),
    ensures
        fold_vals(f, acc, pre.stream()) == (match call_spec(
            f,
            seq![acc, val_of(collapse(pre.mat(0)))],
        ) {
            Ok(a2) => fold_vals(f, a2, post.stream()),
            Err(e) => Err::<ValM, Error>(e),
        }),
{
    assert(pre.stream()[0] == pre.mat(0));
    assert(pre.stream().drop_first() =~= post.stream());
}

/// Sequential left fold of an iterable with an initial value and a folding
/// callable; faults from upstream or from the callable abort immediately
/// and no partial result is returned.
#[verifier::loop_isolation(false)]
pub fn fold(v: Value, initial: Value, f: &Callable) -> (r: Result<Value, Error>)
    ensures
        !iterable(v.dv()) ==> r is Err && r->Err_0 == not_iterable_err(v.dv()),
        iterable(v.dv()) && iter_model(v.dv()).finite() && iter_model(v.dv()).rem() < usize::MAX ==> match fold_vals(
            f.dv(),
            initial.dv(),
            iter_model(v.dv()).stream(),
        ) {
            Ok(v) => r is Ok && r->Ok_0.dv() == v,
            Err(e) => r is Err && r->Err_0 == e,
        },
{
    let ghost m = v.dv();
    let mut cur = match make_iterator(v) {
        Err(e) => {
            return Err(e);
        },
        Ok(it) => it,
    };
    let ghost orig = cur.dv();
    let mut acc = initial;
    let mut budget: usize = usize::MAX;
    loop
        invariant
            orig == iter_model(m),
            orig.finite() && orig.rem() < usize::MAX ==> {
                &&& cur.dv().modeled()
                &&& cur.dv().mlen() is Some
                &&& cur.dv().rem() < budget
                &&& fold_vals(f.dv(), initial.dv(), orig.stream()) == fold_vals(
                    f.dv(),
                    acc.dv(),
                    cur.dv().stream(),
                )
            },
        decreases budget,
    {
        if budget == 0 {
            return Err(Error::InvalidArgument { context: Ctx::Fold });
        }
        budget = budget - 1;
        let ghost pre = cur.dv();
        let step = cur.next();
        match step {
            None => {
                proof {
                    if orig.finite() && orig.rem() < usize::MAX {
                        assert(pre.stream() =~= Seq::<OutM>::empty());
                    }
                }
                return Ok(acc);
            },
            Some(o) => {
                match collect_pair(o) {
                    Out::Error(e) => {
                        proof {
                            if orig.finite() && orig.rem() < usize::MAX {
                                assert(pre.stream()[0] == pre.mat(0));
                            }
                        }
                        return Err(e);
                    },
                    Out::Value(v) => {
                        proof {
                            if orig.finite() && orig.rem() < usize::MAX {
                                lemma_fold_step(f.dv(), acc.dv(), pre, cur.dv());
                            }
                        }
                        let mut args: Vec<Value> = Vec::new();
                        args.push(acc);
                        args.push(v);
                        proof {
                            lemma_seq_dv_index(args@, 0);
                            lemma_seq_dv_index(args@, 1);
                            assert(seq_dv(args@) =~= seq![args@[0].dv(), args@[1].dv()]);
                        }
                        match run_callable(f, args) {
                            Ok(a2) => {
                                acc = a2;
                            },
                            Err(e) => {
                                return Err(e);
                            },
                        }
                    },
                    Out::ValuePair(_, _) => {
                        proof {
                            assert(false);
                        }
                        return Err(Error::InvalidArgument { context: Ctx::Fold });
                    },
                }
            },
        }
    }
}

/// What folding with a built-in operator produces.
pub open spec fn op_fold(op: Op, acc: ValM, s: Seq<OutM>) -> Result<ValM, Error>
    decreases s.len(),
{
    if s.len() == 0 {
        Ok(acc)
    } else {
        let c = collapse(s[0]);
        match c {
            OutM::E(e) => Err(e),
            _ => match bin_spec(op, acc, val_of(c)) {
                Ok(a2) => op_fold(op, a2, s.drop_first()),
                Err(e) => Err(e),
            },
        }
    }
}

/// One non-fault operator-fold step composes.
proof fn lemma_op_fold_step(op: Op, acc: ValM, pre: IterM, post: IterM)
    requires
        pre.modeled(),
        pre.mlen() is Some,
        pre.rem() >= 1,
        !(collapse(pre.mat(0)) is E),
        advances_to(pre, post),
    ensures
        op_fold(op, acc, pre.stream()) == (match bin_spec(op, acc, val_of(collapse(pre.mat(0)))) {
            Ok(a2) => op_fold(op, a2, post.stream()),
            Err(e) => Err::<ValM, Error>(e),
        }),
{
    assert(pre.stream()[0] == pre.mat(0));
    assert(pre.stream().drop_first() =~= post.stream());
}

/// Folds an iterable with a built-in binary operator instead of a user
/// function.
#[verifier::loop_isolation(false)]
pub fn fold_with_operator(op: Op, v: Value, initial: Value) -> (r: Result<Value, Error>)
    ensures
        !iterable(v.dv()) ==> r is Err && r->Err_0 == not_iterable_err(v.dv()),
        iterable(v.dv()) && iter_model(v.dv()).finite() && iter_model(v.dv()).rem() < usize::MAX ==> match op_fold(
            op,
            initial.dv(),
            iter_model(v.dv()).stream(),
        ) {
            Ok(v) => r is Ok && r->Ok_0.dv() == v,
            Err(e) => r is Err && r->Err_0 == e,
        },
{
    let ghost m = v.dv();
    let mut cur = match make_iterator(v) {
        Err(e) => {
            return Err(e);
        },
        Ok(it) => it,
    };
    let ghost orig = cur.dv();
    let mut acc = initial;
    let mut budget: usize = usize::MAX;
    loop
        invariant
            orig == iter_model(m),
            orig.finite() && orig.rem() < usize::MAX ==> {
                &&& cur.dv().modeled()
                &&& cur.dv().mlen() is Some
                &&& cur.dv().rem() < budget
                &&& op_fold(op, initial.dv(), orig.stream()) == op_fold(
                    op,
                    acc.dv(),
                    cur.dv().stream(),
                )
            },
        decreases budget,
    {
        if budget == 0 {
            return Err(Error::InvalidArgument { context: Ctx::Fold });
        }
        budget = budget - 1;
        let ghost pre = cur.dv();
        let step = cur.next();
        match step {
            None => {
                proof {
                    if orig.finite() && orig.rem() < usize::MAX {
                        assert(pre.stream() =~= Seq::<OutM>::empty());
                    }
                }
                return Ok(acc);
            },
            Some(o) => {
                match collect_pair(o) {
                    Out::Error(e) => {
                        proof {
                            if orig.finite() && orig.rem() < usize::MAX {
                                assert(pre.stream()[0] == pre.mat(0));
                            }
                        }
                        return Err(e);
                    },
                    Out::Value(v) => {
                        proof {
                            if orig.finite() && orig.rem() < usize::MAX {
                                lemma_op_fold_step(op, acc.dv(), pre, cur.dv());
                            }
                        }
                        match run_binary_op(op, acc, v) {
                            Ok(a2) => {
                                acc = a2;
                            },
                            Err(e) => {
                                return Err(e);
                            },
                        }
                    },
                    Out::ValuePair(_, _) => {
                        proof {
                            assert(false);
                        }
                        return Err(Error::InvalidArgument { context: Ctx::Fold });
                    },
                }
            },
        }
    }
}

/// The initial value a summing or multiplying fold starts from.
pub open spec fn opt_initial(o: Option<Value>, d: ValM) -> ValM {
    match o {
        Some(v) => v.dv(),
        None => d,
    }
}

/// Folds an iterable with the built-in add operator; the identity default
/// is zero.
pub fn sum(v: Value, initial: Option<Value>) -> (r: Result<Value, Error>)
    ensures
        !iterable(v.dv()) ==> r is Err && r->Err_0 == not_iterable_err(v.dv()),
        iterable(v.dv()) && iter_model(v.dv()).finite() && iter_model(v.dv()).rem() < usize::MAX ==> match op_fold(
            Op::Add,
            opt_initial(initial, ValM::Num(0)),
            iter_model(v.dv()).stream(),
        ) {
            Ok(v) => r is Ok && r->Ok_0.dv() == v,
            Err(e) => r is Err && r->Err_0 == e,
        },
{
    let init = match initial {
        Some(v) => v,
        None => Value::Number(0),
    };
    fold_with_operator(Op::Add, v, init)
}

/// Folds an iterable with the built-in multiply operator; the identity
/// default is one.
pub fn product(v: Value, initial: Option<Value>) -> (r: Result<Value, Error>)
    ensures
        !iterable(v.dv()) ==> r is Err && r->Err_0 == not_iterable_err(v.dv()),
        iterable(v.dv()) && iter_model(v.dv()).finite() && iter_model(v.dv()).rem() < usize::MAX ==> match op_fold(
            Op::Multiply,
            opt_initial(initial, ValM::Num(1)),
            iter_model(v.dv()).stream(),
        ) {
            Ok(v) => r is Ok && r->Ok_0.dv() == v,
            Err(e) => r is Err && r->Err_0 == e,
        },
{
    let init = match initial {
        Some(v) => v,
        None => Value::Number(1),
    };
    fold_with_operator(Op::Multiply, v, init)
}

/// Chains two iterable values: the result exhausts the first, then the
/// second.
pub fn chain(a: Value, b: Value) -> (r: Result<Value, Error>)
    ensures
        iterable(a.dv()) && iterable(b.dv()) ==> r is Ok && r->Ok_0.dv() == ValM::Iter(
            Box::new(
                IterM::Chain {
                    first: Box::new(iter_model(a.dv())),
                    second: Box::new(iter_model(b.dv())),
                },
            ),
        ),
        !iterable(a.dv()) ==> r is Err && r->Err_0 == not_iterable_err(a.dv()),
        iterable(a.dv()) && !iterable(b.dv()) ==> r is Err && r->Err_0 == not_iterable_err(
            b.dv(),
        ),
{
    let ia = match make_iterator(a) {
        Err(e) => {
            return Err(e);
        },
        Ok(it) => it,
    };
    let ib = match make_iterator(b) {
        Err(e) => {
            return Err(e);
        },
        Ok(it) => it,
    };
    Ok(Value::Iterator(Box::new(Iter::Chain { first: Box::new(ia), second: Box::new(ib) })))
}

/// Zips two iterable values elementwise into two-element tuples.
pub fn zip(a: Value, b: Value) -> (r: Result<Value, Error>)
    ensures
        iterable(a.dv()) && iterable(b.dv()) ==> r is Ok && r->Ok_0.dv() == ValM::Iter(
            Box::new(
                IterM::Zip {
                    left: Box::new(iter_model(a.dv())),
                    right: Box::new(iter_model(b.dv())),
                },
            ),
        ),
        !iterable(a.dv()) ==> r is Err && r->Err_0 == not_iterable_err(a.dv()),
        iterable(a.dv()) && !iterable(b.dv()) ==> r is Err && r->Err_0 == not_iterable_err(
            b.dv(),
        ),
{
    let ia = match make_iterator(a) {
        Err(e) => {
            return Err(e);
        },
        Ok(it) => it,
    };
    let ib = match make_iterator(b) {
        Err(e) => {
            return Err(e);
        },
        Ok(it) => it,
    };
    Ok(Value::Iterator(Box::new(Iter::Zip { left: Box::new(ia), right: Box::new(ib) })))
}

/// Pairs a zero-based index with each element of an iterable value.
pub fn enumerate(v: Value) -> (r: Result<Value, Error>)
    ensures
        iterable(v.dv()) ==> r is Ok && r->Ok_0.dv() == ValM::Iter(
            Box::new(IterM::Enumerate { inner: Box::new(iter_model(v.dv())), count: 0 }),
        ),
        !iterable(v.dv()) ==> r is Err && r->Err_0 == not_iterable_err(v.dv()),
{
    match make_iterator(v) {
        Err(e) => Err(e),
        Ok(it) => Ok(Value::Iterator(Box::new(Iter::Enumerate { inner: Box::new(it), count: 0 }))),
    }
}

/// Maps each element of an iterable value through a callable, lazily.
pub fn each(v: Value, f: Callable) -> (r: Result<Value, Error>)
    ensures
        iterable(v.dv()) ==> r is Ok && r->Ok_0.dv() == ValM::Iter(
            Box::new(IterM::Each { inner: Box::new(iter_model(v.dv())), f: f.dv() }),
        ),
        !iterable(v.dv()) ==> r is Err && r->Err_0 == not_iterable_err(v.dv()),
{
    match make_iterator(v) {
        Err(e) => Err(e),
        Ok(it) => Ok(Value::Iterator(Box::new(Iter::Each { inner: Box::new(it), f }))),
    }
}

/// An iterator that yields one value, once.
pub fn once(value: Value) -> (r: Value)
    ensures
        r.dv() == ValM::Iter(Box::new(IterM::Once { value: value.dv() })),
{
    Value::Iterator(Box::new(Iter::Once { value }))
}

/// An iterator that repeats a value forever, or a fixed number of times.
pub fn repeat(value: Value, times: Option<usize>) -> (r: Value)
    ensures
        times is None ==> r.dv() == ValM::Iter(Box::new(IterM::Repeat { value: value.dv() })),
        times is Some ==> r.dv() == ValM::Iter(
            Box::new(IterM::RepeatN { value: value.dv(), remaining: times->Some_0 as int }),
        ),
{
    match times {
        None => Value::Iterator(Box::new(Iter::Repeat { value })),
        Some(n) => Value::Iterator(Box::new(Iter::RepeatN { value, remaining: n })),
    }
}

/// An iterator that calls a zero-argument callable each step, forever, or a
/// fixed number of times.
pub fn generate(f: Callable, times: Option<usize>) -> (r: Value)
    ensures
        times is None ==> r.dv() == ValM::Iter(Box::new(IterM::Generate { f: f.dv() })),
        times is Some ==> r.dv() == ValM::Iter(
            Box::new(IterM::GenerateN { f: f.dv(), remaining: times->Some_0 as int }),
        ),
{
    match times {
        None => Value::Iterator(Box::new(Iter::Generate { f })),
        Some(n) => Value::Iterator(Box::new(Iter::GenerateN { f, remaining: n })),
    }
}

/// Wraps an iterable value into an iterator value.
pub fn iter(v: Value) -> (r: Result<Value, Error>)
    ensures
        iterable(v.dv()) ==> r is Ok && r->Ok_0.dv() == ValM::Iter(
            Box::new(iter_model(v.dv())),
        ),
        !iterable(v.dv()) ==> r is Err && r->Err_0 == not_iterable_err(v.dv()),
{
    match make_iterator(v) {
        Err(e) => Err(e),
        Ok(it) => Ok(Value::Iterator(Box::new(it))),
    }
}

/// Turns one iteration output into a plain result: a missing output is
/// Null, a paired production becomes a tuple, a fault is the error.
pub fn iter_output_to_result(o: Option<Out>) -> (r: Result<Value, Error>)
    ensures
        match o {
            None => r is Ok && r->Ok_0.dv() == ValM::Null,
            Some(x) => match collapse(x.dv()) {
                OutM::E(e) => r is Err && r->Err_0 == e,
                c => r is Ok && r->Ok_0.dv() == val_of(c),
            },
        },
{
    match o {
        None => Ok(Value::Null),
        Some(x) => match collect_pair(x) {
            Out::Error(e) => Err(e),
            Out::Value(v) => Ok(v),
            Out::ValuePair(_, _) => {
                proof {
                    assert(false);
                }
                Ok(Value::Null)
            },
        },
    }
}

/// Pulls a single output from an iterable value: the produced value, Null
/// when the value is already exhausted, or the fault.
pub fn next(v: Value) -> (r: Result<Value, Error>)
    ensures
        !iterable(v.dv()) ==> r is Err && r->Err_0 == not_iterable_err(v.dv()),
        iterable(v.dv()) && iter_model(v.dv()).modeled() ==> {
            let m = iter_model(v.dv());
            if m.mlen() == Some(0nat) {
                r is Ok && r->Ok_0.dv() == ValM::Null
            } else {
                match collapse(m.mat(0)) {
                    OutM::E(e) => r is Err && r->Err_0 == e,
                    c => r is Ok && r->Ok_0.dv() == val_of(c),
                }
            }
        },
{
    match make_iterator(v) {
        Err(e) => Err(e),
        Ok(mut it) => {
            let o = it.next();
            iter_output_to_result(o)
        },
    }
}

/// Concatenating two finite streams drains to the concatenated values, when
/// the first drains cleanly.
pub proof fn lemma_drain_append(s1: Seq<OutM>, s2: Seq<OutM>)
    requires
        drain_vals(s1) is Ok,
    ensures
        drain_vals(s1 + s2) == (match drain_vals(s2) {
            Ok(t) => Ok::<Seq<ValM>, Error>(drain_vals(s1)->Ok_0 + t),
            Err(e) => Err::<Seq<ValM>, Error>(e),
        }),
    decreases s1.len(),
{
    if s1.len() == 0 {
        assert(s1 + s2 =~= s2);
        match drain_vals(s2) {
            Ok(t) => {
                assert(drain_vals(s1)->Ok_0 + t =~= t);
            },
            Err(_) => {},
        }
    } else {
        assert((s1 + s2)[0] == s1[0]);
        assert((s1 + s2).drop_first() =~= s1.drop_first() + s2);
        lemma_drain_append(s1.drop_first(), s2);
        let c = collapse(s1[0]);
        match drain_vals(s1.drop_first() + s2) {
            Ok(t2) => {
                assert(seq![val_of(c)] + t2 =~= (seq![val_of(c)] + drain_vals(
                    s1.drop_first(),
                )->Ok_0) + (drain_vals(s2)->Ok_0));
            },
            Err(_) => {},
        }
    }
}

/// Materializing a finite iterable into a list and iterating that list
/// again yields the same elements in the same order.
pub proof fn lemma_to_list_round_trip(m: ValM)
    requires
        iterable(m),
        iter_model(m).finite(),
        drain_vals(iter_model(m).stream()) is Ok,
    ensures
        ({
            let vs = drain_vals(iter_model(m).stream())->Ok_0;
            &&& iterable(ValM::List(vs))
            &&& iter_model(ValM::List(vs)).finite()
            &&& drain_vals(iter_model(ValM::List(vs)).stream()) == Ok::<Seq<ValM>, Error>(vs)
        }),
{
    let vs = drain_vals(iter_model(m).stream())->Ok_0;
    let lm = iter_model(ValM::List(vs));
    assert(lm.rem() == vs.len());
    assert forall|k: int| 0 <= k < lm.stream().len() implies #[trigger] lm.stream()[k] is V by {
        assert(lm.stream()[k] == lm.mat(k));
    }
    lemma_drain_values(lm.stream());
    lemma_drain_ok_len(iter_model(m).stream());
    assert(Seq::new(lm.stream().len(), |k: int| val_of(lm.stream()[k])) =~= vs) by {
        lemma_drain_values_pointwise(iter_model(m), vs);
    }
}

/// The values a clean drain returns are the stream's own values, position
/// by position.
proof fn lemma_drain_values_pointwise(m: IterM, vs: Seq<ValM>)
    requires
        m.finite(),
        drain_vals(m.stream()) == Ok::<Seq<ValM>, Error>(vs),
    ensures
        vs.len() == m.rem(),
        forall|k: int| 0 <= k < vs.len() ==> vs[k] == val_of(#[trigger] collapse(m.stream()[k])),
{
    lemma_drain_ok_len(m.stream());
    lemma_drain_index(m.stream());
}

/// Indexing a clean drain.
proof fn lemma_drain_index(s: Seq<OutM>)
    requires
        drain_vals(s) is Ok,
    ensures
        drain_vals(s)->Ok_0.len() == s.len(),
        forall|k: int| 0 <= k < s.len() ==> drain_vals(s)->Ok_0[k] == val_of(
            #[trigger] collapse(s[k]),
        ),
    decreases s.len(),
{
    lemma_drain_ok_len(s);
    if s.len() > 0 {
        lemma_drain_index(s.drop_first());
        assert forall|k: int| 0 <= k < s.len() implies drain_vals(s)->Ok_0[k] == val_of(
            #[trigger] collapse(s[k]),
        ) by {
            if k > 0 {
                assert(s.drop_first()[k - 1] == s[k]);
                assert(drain_vals(s)->Ok_0[k] == drain_vals(s.drop_first())->Ok_0[k - 1]);
            }
        }
    }
}

/// Chaining two finite, cleanly-draining iterables and counting the result
/// equals the sum of the two counts.
pub proof fn lemma_chain_count(a: ValM, b: ValM)
    requires
        iterable(a),
        iterable(b),
        iter_model(a).finite(),
        iter_model(b).finite(),
        drain_vals(iter_model(a).stream()) is Ok,
        drain_vals(iter_model(b).stream()) is Ok,
    ensures
        ({
            let ch = IterM::Chain {
                first: Box::new(iter_model(a)),
                second: Box::new(iter_model(b)),
            };
            &&& ch.finite()
            &&& drain_vals(ch.stream()) is Ok
            &&& drain_vals(ch.stream())->Ok_0.len() == drain_vals(iter_model(a).stream())->Ok_0.len()
                + drain_vals(iter_model(b).stream())->Ok_0.len()
        }),
{
    let ma = iter_model(a);
    let mb = iter_model(b);
    let ch = IterM::Chain { first: Box::new(ma), second: Box::new(mb) };
    assert(ch.stream() =~= ma.stream() + mb.stream());
    lemma_drain_append(ma.stream(), mb.stream());
    lemma_drain_ok_len(ma.stream());
    lemma_drain_ok_len(mb.stream());
    lemma_drain_ok_len(ch.stream());
}

/// Zipping two finite, cleanly-draining iterables yields exactly as many
/// pairs as the shorter side holds.
pub proof fn lemma_zip_length(a: ValM, b: ValM)
    requires
        iterable(a),
        iterable(b),
        iter_model(a).finite(),
        iter_model(b).finite(),
        drain_vals(iter_model(a).stream()) is Ok,
        drain_vals(iter_model(b).stream()) is Ok,
    ensures
        ({
            let z = IterM::Zip { left: Box::new(iter_model(a)), right: Box::new(iter_model(b)) };
            &&& z.finite()
            &&& z.rem() == (if iter_model(a).rem() <= iter_model(b).rem() {
                iter_model(a).rem()
            } else {
                iter_model(b).rem()
            })
            &&& drain_vals(z.stream()) is Ok
            &&& drain_vals(z.stream())->Ok_0.len() == z.rem()
        }),
{
    let ma = iter_model(a);
    let mb = iter_model(b);
    let z = IterM::Zip { left: Box::new(ma), right: Box::new(mb) };
    lemma_drain_ok_no_errors(ma.stream());
    lemma_drain_ok_no_errors(mb.stream());
    let ra = ma.rem();
    let rb = mb.rem();
    if rb < ra {
        assert(ma.stream()[rb as int] == ma.mat(rb as int));
        assert(!(collapse(ma.mat(rb as int)) is E));
    }
    assert(z.rem() == if ra <= rb {
        ra
    } else {
        rb
    });
    assert forall|k: int| 0 <= k < z.stream().len() implies #[trigger] z.stream()[k] is V by {
        assert(z.stream()[k] == z.mat(k));
        assert(ma.stream()[k] == ma.mat(k));
        assert(mb.stream()[k] == mb.mat(k));
        assert(!(collapse(ma.mat(k)) is E));
        assert(!(collapse(mb.mat(k)) is E));
    }
    lemma_drain_values(z.stream());
    lemma_drain_ok_len(z.stream());
}

/// Takes a count or a predicate: a count passes through at most that many
/// outputs, a predicate passes values through while it accepts them. A
/// negative count is rejected at construction.
pub fn take(v: Value, arg: Value) -> (r: Result<Value, Error>)
    ensures
        !iterable(v.dv()) ==> r is Err && r->Err_0 == not_iterable_err(v.dv()),
        iterable(v.dv()) ==> match arg.dv() {
            ValM::Num(n) => if n >= 0 {
                r is Ok && r->Ok_0.dv() == ValM::Iter(
                    Box::new(
                        IterM::TakeN {
                            inner: Box::new(iter_model(v.dv())),
                            remaining: clamp_usize(n as int),
                        },
                    ),
                )
            } else {
                r is Err && r->Err_0 == (Error::InvalidArgument { context: Ctx::Take })
            },
            ValM::Call(f) => r is Ok && r->Ok_0.dv() == ValM::Iter(
                Box::new(IterM::TakeWhile { inner: Box::new(iter_model(v.dv())), predicate: f }),
            ),
            other => r is Err && r->Err_0 == (Error::ArgumentShapeMismatch { context: Ctx::Take }),
        },
{
    let it = match make_iterator(v) {
        Err(e) => {
            return Err(e);
        },
        Ok(it) => it,
    };
    match arg {
        Value::Number(n) => {
            if n >= 0 {
                let remaining: usize = if n as u64 <= usize::MAX as u64 {
                    n as usize
                } else {
                    usize::MAX
                };
                Ok(Value::Iterator(Box::new(Iter::TakeN { inner: Box::new(it), remaining })))
            } else {
                Err(Error::InvalidArgument { context: Ctx::Take })
            }
        },
        Value::Callable(f) => Ok(Value::Iterator(
            Box::new(Iter::TakeWhile { inner: Box::new(it), predicate: f }),
        )),
        _ => Err(Error::ArgumentShapeMismatch { context: Ctx::Take }),
    }
}

/// A non-negative count squeezed into the machine range.
pub open spec fn clamp_usize(n: int) -> int {
    if n <= usize::MAX {
        n
    } else {
        usize::MAX as int
    }
}

/// Buffers the upstream and replays it forever once it is exhausted.
pub fn cycle(v: Value) -> (r: Result<Value, Error>)
    ensures
        !iterable(v.dv()) ==> r is Err && r->Err_0 == not_iterable_err(v.dv()),
        iterable(v.dv()) ==> r is Ok && r->Ok_0.dv() == ValM::Iter(
            Box::new(
                IterM::Cycle {
                    inner: Box::new(iter_model(v.dv())),
                    buffer: Seq::empty(),
                    pos: 0,
                    replaying: false,
                },
            ),
        ),
{
    match make_iterator(v) {
        Err(e) => Err(e),
        Ok(it) => {
            let r = Iter::Cycle {
                inner: Box::new(it),
                buffer: Vec::new(),
                pos: 0,
                replaying: false,
            };
            proof {
                assert(crate::output::out_seq_dv(Seq::<Out>::empty()) =~= Seq::<OutM>::empty());
            }
            Ok(Value::Iterator(Box::new(r)))
        },
    }
}

/// The values of a stream before its first fault, and that fault.
pub open spec fn vals_to_err(s: Seq<OutM>) -> (Seq<ValM>, Option<Error>)
    decreases s.len(),
{
    if s.len() == 0 {
        (Seq::empty(), None)
    } else {
        let c = collapse(s[0]);
        match c {
            OutM::E(e) => (Seq::empty(), Some(e)),
            _ => {
                let rest = vals_to_err(s.drop_first());
                (seq![val_of(c)] + rest.0, rest.1)
            },
        }
    }
}

/// Drains a handle into the collapsed values up to the first fault, which
/// is handed back beside them.
#[verifier::loop_isolation(false)]
fn drain_outs(it: Iter, ctx: Ctx) -> (r: Result<(Vec<Value>, Option<Error>), Error>)
    ensures
        it.dv().finite() && it.dv().rem() < usize::MAX ==> r is Ok && ({
            let parts = vals_to_err(it.dv().stream());
            seq_dv(r->Ok_0.0@) == parts.0 && r->Ok_0.1 == parts.1
        }),
{
    let ghost orig = it.dv();
    let (low, _) = it.size_hint();
    let mut out: Vec<Value> = Vec::with_capacity(low);
    let mut cur = it;
    let mut budget: usize = usize::MAX;
    loop
        invariant
            orig.finite() && orig.rem() < usize::MAX ==> {
                &&& cur.dv().modeled()
                &&& cur.dv().mlen() is Some
                &&& cur.dv().rem() < budget
                &&& vals_to_err(orig.stream()) == ({
                    let rest = vals_to_err(cur.dv().stream());
                    (seq_dv(out@) + rest.0, rest.1)
                })
            },
        decreases budget,
    {
        if budget == 0 {
            return Err(Error::InvalidArgument { context: ctx });
        }
        budget = budget - 1;
        let ghost pre = cur.dv();
        let step = cur.next();
        match step {
            None => {
                proof {
                    if orig.finite() && orig.rem() < usize::MAX {
                        assert(pre.stream() =~= Seq::<OutM>::empty());
                        assert(seq_dv(out@) + Seq::<ValM>::empty() =~= seq_dv(out@));
                    }
                }
                return Ok((out, None));
            },
            Some(o) => {
                match collect_pair(o) {
                    Out::Error(e) => {
                        proof {
                            if orig.finite() && orig.rem() < usize::MAX {
                                assert(pre.stream()[0] == pre.mat(0));
                                assert(seq_dv(out@) + Seq::<ValM>::empty() =~= seq_dv(out@));
                            }
                        }
                        return Ok((out, Some(e)));
                    },
                    Out::Value(v) => {
                        proof {
                            if orig.finite() && orig.rem() < usize::MAX {
                                assert(pre.stream()[0] == pre.mat(0));
                                assert(pre.stream().drop_first() =~= cur.dv().stream());
                                lemma_seq_dv_push(out@, v);
                                assert((seq_dv(out@) + seq![v.dv()]) =~= seq_dv(out@.push(v)));
                            }
                        }
                        let ghost prev_vals = seq_dv(out@);
                        out.push(v);
                        proof {
                            if orig.finite() && orig.rem() < usize::MAX {
                                let rest = vals_to_err(cur.dv().stream());
                                assert((prev_vals + (seq![v.dv()] + rest.0)) =~= (seq_dv(out@)
                                    + rest.0));
                            }
                        }
                    },
                    Out::ValuePair(_, _) => {
                        proof {
                            assert(false);
                        }
                        return Err(Error::InvalidArgument { context: ctx });
                    },
                }
            },
        }
    }
}

/// A materialized run rebuilt from drained values and an optional trailing
/// fault.
pub open spec fn outs_model(vs: Seq<ValM>, err: Option<Error>) -> Seq<OutM> {
    Seq::new(vs.len(), |k: int| OutM::V(vs[k])) + (match err {
        Some(e) => seq![OutM::E(e)],
        None => Seq::<OutM>::empty(),
    })
}

/// Builds the materialized run for drained values and an optional fault.
#[verifier::loop_isolation(false)]
fn outs_of(vs: Vec<Value>, err: Option<Error>) -> (r: Vec<Out>)
    ensures
        crate::output::out_seq_dv(r@) == outs_model(seq_dv(vs@), err),
{
    proof {
        lemma_seq_dv_len(vs@);
    }
    let mut out: Vec<Out> = Vec::with_capacity(vs.len());
    let mut i: usize = 0;
    while i < vs.len()
        invariant
            i <= vs@.len(),
            crate::output::out_seq_dv(out@) == Seq::new(
                i as nat,
                |k: int| OutM::V(seq_dv(vs@)[k]),
            ),
        decreases vs@.len() - i,
    {
        let ghost pre = out@;
        let x = vs[i].dup();
        let ghost gx = x;
        out.push(Out::Value(x));
        proof {
            lemma_out_seq_dv_push(pre, Out::Value(gx));
            lemma_seq_dv_index(vs@, i as int);
            assert(crate::output::out_seq_dv(out@) =~= Seq::new(
                (i + 1) as nat,
                |k: int| OutM::V(seq_dv(vs@)[k]),
            ));
        }
        i = i + 1;
    }
    match err {
        Some(e) => {
            let ghost pre = out@;
            let ghost ge = e;
            out.push(Out::Error(e));
            proof {
                lemma_out_seq_dv_push(pre, Out::Error(ge));
                assert(crate::output::out_seq_dv(out@) =~= outs_model(seq_dv(vs@), err));
            }
        },
        None => {
            proof {
                assert(crate::output::out_seq_dv(out@) =~= outs_model(seq_dv(vs@), err));
            }
        },
    }
    out
}

/// Keeps the upstream values a predicate accepts, pulling elements one at a
/// time and stopping at the first fault, so that nothing past a faulting
/// element is ever observed. The kept run is materialized here and handed
/// back as a replayable iterator: unlike the while-form of `take`, a
/// filter owes unboundedly many upstream pulls for one output, which the
/// termination discipline of this crate does not admit lazily - bound an
/// unbounded upstream with the count form of `take` before filtering.
#[verifier::loop_isolation(false)]
pub fn keep(v: Value, predicate: &Callable) -> (r: Result<Value, Error>)
    ensures
        !iterable(v.dv()) ==> r is Err && r->Err_0 == not_iterable_err(v.dv()),
        iterable(v.dv()) && iter_model(v.dv()).finite() && iter_model(v.dv()).rem() < usize::MAX
            ==> r is Ok && r->Ok_0.dv() == ValM::Iter(
            Box::new(
                IterM::OfOuts {
                    outs: keep_filter(
                        predicate.dv(),
                        stream_pre(iter_model(v.dv()), iter_model(v.dv()).rem() as int),
                        false,
                    ),
                    index: 0,
                },
            ),
        ),
{
    let ghost m = v.dv();
    let mut cur = match make_iterator(v) {
        Err(e) => {
            return Err(e);
        },
        Ok(it) => it,
    };
    let ghost orig = cur.dv();
    let ghost f = predicate.dv();
    let mut outs: Vec<Out> = Vec::new();
    let mut budget: usize = usize::MAX;
    loop
        invariant
            orig == iter_model(m),
            orig.finite() && orig.rem() < usize::MAX ==> {
                &&& cur.dv().modeled()
                &&& cur.dv().mlen() is Some
                &&& cur.dv().rem() < budget
                &&& keep_filter(f, stream_pre(orig, orig.rem() as int), false) == out_seq_dv(
                    outs@,
                ) + keep_filter(f, stream_pre(cur.dv(), cur.dv().rem() as int), false)
            },
        decreases budget,
    {
        if budget == 0 {
            return Err(Error::InvalidArgument { context: Ctx::Keep });
        }
        budget = budget - 1;
        let ghost pre = cur.dv();
        let step = cur.next();
        proof {
            if orig.finite() && orig.rem() < usize::MAX {
                lemma_stream_pre(pre, pre.rem() as int);
            }
        }
        match step {
            None => {
                proof {
                    if orig.finite() && orig.rem() < usize::MAX {
                        assert(stream_pre(pre, pre.rem() as int) =~= Seq::<OutM>::empty());
                        assert(out_seq_dv(outs@) + Seq::<OutM>::empty() =~= out_seq_dv(outs@));
                    }
                }
                return Ok(Value::Iterator(Box::new(Iter::OfOuts { outs, index: 0 })));
            },
            Some(o) => {
                if is_error(&o) {
                    let ghost pouts = outs@;
                    let ghost go = o;
                    outs.push(o);
                    proof {
                        if orig.finite() && orig.rem() < usize::MAX {
                            lemma_out_seq_dv_push(pouts, go);
                            assert(keep_filter(f, stream_pre(pre, pre.rem() as int), false)
                                =~= seq![go.dv()]);
                            assert(out_seq_dv(pouts) + keep_filter(
                                f,
                                stream_pre(pre, pre.rem() as int),
                                false,
                            ) =~= out_seq_dv(outs@));
                        }
                    }
                    return Ok(Value::Iterator(Box::new(Iter::OfOuts { outs, index: 0 })));
                }
                let oc = collect_pair(o.dup());
                let pv = match oc {
                    Out::Value(pv) => pv,
                    _ => Value::Null,
                };
                let mut args: Vec<Value> = Vec::new();
                args.push(pv);
                proof {
                    lemma_seq_dv_index(args@, 0);
                    assert(seq_dv(args@) =~= seq![args@[0].dv()]);
                }
                match run_callable(predicate, args) {
                    Ok(Value::Bool(true)) => {
                        let ghost pouts = outs@;
                        let ghost go = o;
                        outs.push(o);
                        proof {
                            if orig.finite() && orig.rem() < usize::MAX {
                                lemma_filter_head_true(
                                    f,
                                    stream_pre(pre, pre.rem() as int),
                                    false,
                                );
                                lemma_stream_pre_shift(pre, cur.dv(), pre.rem() as int);
                                lemma_out_seq_dv_push(pouts, go);
                                assert(out_seq_dv(pouts) + (seq![
                                    stream_pre(pre, pre.rem() as int)[0],
                                ] + keep_filter(
                                    f,
                                    stream_pre(cur.dv(), cur.dv().rem() as int),
                                    false,
                                )) =~= out_seq_dv(outs@) + keep_filter(
                                    f,
                                    stream_pre(cur.dv(), cur.dv().rem() as int),
                                    false,
                                ));
                            }
                        }
                    },
                    Ok(Value::Bool(false)) => {
                        proof {
                            if orig.finite() && orig.rem() < usize::MAX {
                                lemma_filter_head_false(f, stream_pre(pre, pre.rem() as int));
                                lemma_stream_pre_shift(pre, cur.dv(), pre.rem() as int);
                            }
                        }
                    },
                    Ok(other) => {
                        proof {
                            crate::value::lemma_kind_dv(other);
                        }
                        let e = Error::TypeMismatch {
                            expected: Expectation::BoolFromPredicate,
                            found: other.kind(),
                        };
                        let ghost pouts = outs@;
                        let ghost ge = e;
                        outs.push(Out::Error(e));
                        proof {
                            if orig.finite() && orig.rem() < usize::MAX {
                                lemma_out_seq_dv_push(pouts, Out::Error(ge));
                                assert(keep_filter(f, stream_pre(pre, pre.rem() as int), false)
                                    =~= seq![OutM::E(ge)]);
                                assert(out_seq_dv(pouts) + keep_filter(
                                    f,
                                    stream_pre(pre, pre.rem() as int),
                                    false,
                                ) =~= out_seq_dv(outs@));
                            }
                        }
                        return Ok(Value::Iterator(Box::new(Iter::OfOuts { outs, index: 0 })));
                    },
                    Err(e) => {
                        let ghost pouts = outs@;
                        let ghost ge = e;
                        outs.push(Out::Error(e));
                        proof {
                            if orig.finite() && orig.rem() < usize::MAX {
                                lemma_out_seq_dv_push(pouts, Out::Error(ge));
                                assert(keep_filter(f, stream_pre(pre, pre.rem() as int), false)
                                    =~= seq![OutM::E(ge)]);
                                assert(out_seq_dv(pouts) + keep_filter(
                                    f,
                                    stream_pre(pre, pre.rem() as int),
                                    false,
                                ) =~= out_seq_dv(outs@));
                            }
                        }
                        return Ok(Value::Iterator(Box::new(Iter::OfOuts { outs, index: 0 })));
                    },
                }
            },
        }
    }
}

/// Materializes an iterable fully, once, and replays it backwards: the
/// values in reverse order, with a fault - met while materializing - coming
/// out first.
pub fn reversed(v: Value) -> (r: Result<Value, Error>)
    ensures
        !iterable(v.dv()) ==> r is Err && r->Err_0 == not_iterable_err(v.dv()),
        iterable(v.dv()) && iter_model(v.dv()).finite() && iter_model(v.dv()).rem() < usize::MAX
            ==> r is Ok && ({
            let parts = vals_to_err(iter_model(v.dv()).stream());
            r->Ok_0.dv() == ValM::Iter(
                Box::new(IterM::Reversed { outputs: outs_model(parts.0, parts.1) }),
            )
        }),
{
    match make_iterator(v) {
        Err(e) => Err(e),
        Ok(it) => match drain_outs(it, Ctx::Reversed) {
            Err(e) => Err(e),
            Ok((vs, err)) => {
                let outs = outs_of(vs, err);
                Ok(Value::Iterator(Box::new(Iter::Reversed { outputs: outs })))
            },
        },
    }
}

/// The overlapping windows of a run of values: every group holds exactly
/// `n` of them, and a trailing fault follows the complete groups.
pub open spec fn windows_outs(vs: Seq<ValM>, err: Option<Error>, n: int) -> Seq<OutM> {
    Seq::new(
        if vs.len() >= n {
            (vs.len() - n + 1) as nat
        } else {
            0nat
        },
        |k: int| OutM::V(ValM::Tuple(vs.subrange(k, k + n))),
    ) + (match err {
        Some(e) => seq![OutM::E(e)],
        None => Seq::<OutM>::empty(),
    })
}

/// The non-overlapping groups of a run of values: each holds `n` of them,
/// a last group without a following fault may be shorter, and a trailing
/// fault follows the complete groups.
pub open spec fn chunks_outs(vs: Seq<ValM>, err: Option<Error>, n: int) -> Seq<OutM>
    recommends
        n >= 1,
{
    let full = vs.len() as int / n;
    let tail_len = vs.len() - full * n;
    let groups = Seq::new(
        full as nat,
        |k: int| OutM::V(ValM::Tuple(vs.subrange(k * n, k * n + n))),
    );
    match err {
        Some(e) => groups + seq![OutM::E(e)],
        None => if tail_len > 0 {
            groups + seq![OutM::V(ValM::Tuple(vs.subrange(full * n, vs.len() as int)))]
        } else {
            groups
        },
    }
}

/// A tuple over a range of a drained run.
#[verifier::loop_isolation(false)]
fn tuple_of_range(vs: &Vec<Value>, start: usize, len: usize) -> (r: Value)
    requires
        start + len <= vs@.len(),
    ensures
        r.dv() == ValM::Tuple(seq_dv(vs@).subrange(start as int, start + len)),
{
    proof {
        lemma_seq_dv_len(vs@);
    }
    let total = vs.len();
    let mut grp: Vec<Value> = Vec::with_capacity(len);
    let mut j: usize = 0;
    while j < len
        invariant
            j <= len,
            start + len <= vs@.len(),
            total == vs@.len(),
            seq_dv(grp@) == seq_dv(vs@).subrange(start as int, start + j),
        decreases len - j,
    {
        let ghost pre = grp@;
        let x = vs[start + j].dup();
        grp.push(x);
        proof {
            lemma_seq_dv_push(pre, x);
            lemma_seq_dv_index(vs@, start + j);
            assert(seq_dv(grp@) =~= seq_dv(vs@).subrange(start as int, start + j + 1));
        }
        j = j + 1;
    }
    Value::Tuple(grp)
}

/// The argument a group size must be: a Number of at least one.
fn group_size(arg: Value, ctx: Ctx) -> (r: Result<usize, Error>)
    ensures
        match arg.dv() {
            ValM::Num(n) => if n >= 1 {
                r is Ok && r->Ok_0 as int == clamp_usize(n as int)
            } else {
                r is Err && r->Err_0 == (Error::InvalidArgument { context: ctx })
            },
            _ => r is Err && r->Err_0 == (Error::ArgumentShapeMismatch { context: ctx }),
        },
{
    match arg {
        Value::Number(n) => {
            if n >= 1 {
                Ok(
                    if n as u64 <= usize::MAX as u64 {
                        n as usize
                    } else {
                        usize::MAX
                    },
                )
            } else {
                Err(Error::InvalidArgument { context: ctx })
            }
        },
        _ => Err(Error::ArgumentShapeMismatch { context: ctx }),
    }
}

/// Materializes the upstream and yields its overlapping windows of exactly
/// `n` values; there is no short final group. A zero or negative size is
/// rejected at construction with the function's name.
#[verifier::loop_isolation(false)]
pub fn windows(v: Value, arg: Value) -> (r: Result<Value, Error>)
    ensures
        !iterable(v.dv()) ==> r is Err && r->Err_0 == not_iterable_err(v.dv()),
        iterable(v.dv()) && (match arg.dv() {
            ValM::Num(n) => n < 1,
            _ => true,
        }) ==> r is Err && r->Err_0 == (match arg.dv() {
            ValM::Num(_) => Error::InvalidArgument { context: Ctx::Windows },
            _ => Error::ArgumentShapeMismatch { context: Ctx::Windows },
        }),
        iterable(v.dv()) && iter_model(v.dv()).finite() && iter_model(v.dv()).rem() < usize::MAX
            && (match arg.dv() {
            ValM::Num(n) => n >= 1,
            _ => false,
        }) ==> r is Ok && ({
            let parts = vals_to_err(iter_model(v.dv()).stream());
            r->Ok_0.dv() == ValM::Iter(
                Box::new(
                    IterM::OfOuts {
                        outs: windows_outs(parts.0, parts.1, clamp_usize(arg.dv()->Num_0 as int)),
                        index: 0,
                    },
                ),
            )
        }),
{
    let ghost m = v.dv();
    let it = match make_iterator(v) {
        Err(e) => {
            return Err(e);
        },
        Ok(it) => it,
    };
    let n = match group_size(arg, Ctx::Windows) {
        Err(e) => {
            return Err(e);
        },
        Ok(n) => n,
    };
    let (vs, err) = match drain_outs(it, Ctx::Windows) {
        Err(e) => {
            return Err(e);
        },
        Ok(p) => p,
    };
    let ghost gerr: Option<Error> = if err is Some {
        Some(err->Some_0)
    } else {
        None
    };
    proof {
        lemma_seq_dv_len(vs@);
    }
    let mut outs: Vec<Out> = Vec::new();
    proof {
        assert(out_seq_dv(Seq::<Out>::empty()) =~= Seq::<OutM>::empty());
    }
    let count: usize = if vs.len() >= n {
        vs.len() - n + 1
    } else {
        0
    };
    let mut k: usize = 0;
    while k < count
        invariant
            k <= count,
            count as int == (if seq_dv(vs@).len() >= n as int {
                seq_dv(vs@).len() - n + 1
            } else {
                0
            }),
            n >= 1,
            out_seq_dv(outs@) == Seq::new(
                k as nat,
                |t: int| OutM::V(ValM::Tuple(seq_dv(vs@).subrange(t, t + n))),
            ),
        decreases count - k,
    {
        let ghost pre = outs@;
        let g = tuple_of_range(&vs, k, n);
        let ghost gg = g;
        outs.push(Out::Value(g));
        proof {
            lemma_out_seq_dv_push(pre, Out::Value(gg));
            assert(out_seq_dv(outs@) =~= Seq::new(
                (k + 1) as nat,
                |t: int| OutM::V(ValM::Tuple(seq_dv(vs@).subrange(t, t + n))),
            ));
        }
        k = k + 1;
    }
    match err {
        Some(e) => {
            let ghost pre = outs@;
            let ghost ge = e;
            outs.push(Out::Error(e));
            proof {
                lemma_out_seq_dv_push(pre, Out::Error(ge));
            }
        },
        None => {},
    }
    proof {
        if iterable(m) && iter_model(m).finite() && iter_model(m).rem() < usize::MAX {
            assert(out_seq_dv(outs@) =~= windows_outs(seq_dv(vs@), gerr, n as int));
        }
    }
    Ok(Value::Iterator(Box::new(Iter::OfOuts { outs, index: 0 })))
}

/// Materializes the upstream and yields its non-overlapping groups of `n`
/// values; a last group without a following fault may be shorter. A zero or
/// negative size is rejected at construction with the function's name.
#[verifier::loop_isolation(false)]
pub fn chunks(v: Value, arg: Value) -> (r: Result<Value, Error>)
    ensures
        !iterable(v.dv()) ==> r is Err && r->Err_0 == not_iterable_err(v.dv()),
        iterable(v.dv()) && (match arg.dv() {
            ValM::Num(n) => n < 1,
            _ => true,
        }) ==> r is Err && r->Err_0 == (match arg.dv() {
            ValM::Num(_) => Error::InvalidArgument { context: Ctx::Chunks },
            _ => Error::ArgumentShapeMismatch { context: Ctx::Chunks },
        }),
        iterable(v.dv()) && iter_model(v.dv()).finite() && iter_model(v.dv()).rem() < usize::MAX
            && (match arg.dv() {
            ValM::Num(n) => n >= 1,
            _ => false,
        }) ==> r is Ok && ({
            let parts = vals_to_err(iter_model(v.dv()).stream());
            r->Ok_0.dv() == ValM::Iter(
                Box::new(
                    IterM::OfOuts {
                        outs: chunks_outs(parts.0, parts.1, clamp_usize(arg.dv()->Num_0 as int)),
                        index: 0,
                    },
                ),
            )
        }),
{
    let ghost m = v.dv();
    let it = match make_iterator(v) {
        Err(e) => {
            return Err(e);
        },
        Ok(it) => it,
    };
    let n = match group_size(arg, Ctx::Chunks) {
        Err(e) => {
            return Err(e);
        },
        Ok(n) => n,
    };
    let (vs, err) = match drain_outs(it, Ctx::Chunks) {
        Err(e) => {
            return Err(e);
        },
        Ok(p) => p,
    };
    let ghost gerr: Option<Error> = if err is Some {
        Some(err->Some_0)
    } else {
        None
    };
    proof {
        lemma_seq_dv_len(vs@);
    }
    let full: usize = vs.len() / n;
    let mut outs: Vec<Out> = Vec::new();
    proof {
        assert(out_seq_dv(Seq::<Out>::empty()) =~= Seq::<OutM>::empty());
        assert(full * n <= vs@.len()) by (nonlinear_arith)
            requires
                n >= 1,
                full == vs@.len() as int / n as int,
                vs@.len() >= 0,
        ;
    }
    let mut k: usize = 0;
    while k < full
        invariant
            k <= full,
            n >= 1,
            full as int == vs@.len() as int / n as int,
            full * n <= vs@.len(),
            out_seq_dv(outs@) == Seq::new(
                k as nat,
                |t: int| OutM::V(ValM::Tuple(seq_dv(vs@).subrange(t * n, t * n + n))),
            ),
        decreases full - k,
    {
        proof {
            assert(k * n + n <= full * n) by (nonlinear_arith)
                requires
                    k < full,
                    n >= 1,
            ;
            assert(full * n <= vs@.len()) by (nonlinear_arith)
                requires
                    full as int == vs@.len() as int / n as int,
                    n >= 1,
            ;
        }
        let ghost pre = outs@;
        let g = tuple_of_range(&vs, k * n, n);
        let ghost gg = g;
        outs.push(Out::Value(g));
        proof {
            lemma_out_seq_dv_push(pre, Out::Value(gg));
            assert(out_seq_dv(outs@) =~= Seq::new(
                (k + 1) as nat,
                |t: int| OutM::V(ValM::Tuple(seq_dv(vs@).subrange(t * n, t * n + n))),
            ));
        }
        k = k + 1;
    }
    proof {
        assert(full * n <= vs@.len()) by (nonlinear_arith)
            requires
                full as int == vs@.len() as int / n as int,
                n >= 1,
        ;
    }
    match err {
        Some(e) => {
            let ghost pre = outs@;
            let ghost ge = e;
            outs.push(Out::Error(e));
            proof {
                lemma_out_seq_dv_push(pre, Out::Error(ge));
            }
        },
        None => {
            if full * n < vs.len() {
                let ghost pre = outs@;
                let g = tuple_of_range(&vs, full * n, vs.len() - full * n);
                let ghost gg = g;
                outs.push(Out::Value(g));
                proof {
                    lemma_out_seq_dv_push(pre, Out::Value(gg));
                }
            }
        },
    }
    proof {
        if iterable(m) && iter_model(m).finite() && iter_model(m).rem() < usize::MAX {
            assert(out_seq_dv(outs@) =~= chunks_outs(seq_dv(vs@), gerr, n as int));
        }
    }
    Ok(Value::Iterator(Box::new(Iter::OfOuts { outs, index: 0 })))
}

/// The comparison step of the single-pass extreme selection: whether the
/// candidate replaces the current best. Ties keep the earlier element for
/// the least and the later one for the greatest.
pub open spec fn pick_step(cur: (ValM, ValM), cand: (ValM, ValM), invert: bool) -> Result<
    (ValM, ValM),
    Error,
> {
    match bin_spec(Op::Less, cand.1, cur.1) {
        Ok(ValM::Bool(true)) => Ok(
            if invert {
                cur
            } else {
                cand
            },
        ),
        Ok(ValM::Bool(false)) => Ok(
            if invert {
                cand
            } else {
                cur
            },
        ),
        Ok(other) => Err(Error::TypeMismatch {
            expected: Expectation::BoolFromComparison,
            found: kind_of(other),
        }),
        Err(e) => Err(e),
    }
}

/// What the single-pass selection of an extreme value returns: the best
/// value and its key so far, or the first fault; an empty stream leaves
/// nothing selected.
pub open spec fn sel_fold(
    s: Seq<OutM>,
    key: Option<CallM>,
    invert: bool,
    acc: Option<(ValM, ValM)>,
) -> Result<Option<(ValM, ValM)>, Error>
    decreases s.len(),
{
    if s.len() == 0 {
        Ok(acc)
    } else {
        let c = collapse(s[0]);
        match c {
            OutM::E(e) => Err(e),
            _ => {
                let kv: Result<ValM, Error> = match key {
                    None => Ok(val_of(c)),
                    Some(f) => call_spec(f, seq![val_of(c)]),
                };
                match kv {
                    Err(e) => Err(e),
                    Ok(kvv) => match acc {
                        None => sel_fold(s.drop_first(), key, invert, Some((val_of(c), kvv))),
                        Some(cur) => match pick_step(cur, (val_of(c), kvv), invert) {
                            Ok(nw) => sel_fold(s.drop_first(), key, invert, Some(nw)),
                            Err(e) => Err(e),
                        },
                    },
                }
            },
        }
    }
}

/// The model of an optional key callable.
pub open spec fn opt_call_dv(key: Option<&Callable>) -> Option<CallM> {
    match key {
        Some(f) => Some(f.dv()),
        None => None,
    }
}

/// Selects an extreme element in one pass, comparing with the built-in
/// strict order, optionally through a key callable; an empty iterable
/// yields Null, never a fault.
#[verifier::loop_isolation(false)]
fn select_extreme(v: Value, key: Option<&Callable>, invert: bool) -> (r: Result<Value, Error>)
    ensures
        !iterable(v.dv()) ==> r is Err && r->Err_0 == not_iterable_err(v.dv()),
        iterable(v.dv()) && iter_model(v.dv()).finite() && iter_model(v.dv()).rem() < usize::MAX
            ==> match sel_fold(iter_model(v.dv()).stream(), opt_call_dv(key), invert, None) {
            Ok(None) => r is Ok && r->Ok_0.dv() == ValM::Null,
            Ok(Some(best)) => r is Ok && r->Ok_0.dv() == best.0,
            Err(e) => r is Err && r->Err_0 == e,
        },
{
    let ghost m = v.dv();
    let mut cur = match make_iterator(v) {
        Err(e) => {
            return Err(e);
        },
        Ok(it) => it,
    };
    let ghost orig = cur.dv();
    let ghost gkey = opt_call_dv(key);
    let mut best: Option<(Value, Value)> = None;
    let mut budget: usize = usize::MAX;
    loop
        invariant
            orig == iter_model(m),
            orig.finite() && orig.rem() < usize::MAX ==> {
                &&& cur.dv().modeled()
                &&& cur.dv().mlen() is Some
                &&& cur.dv().rem() < budget
                &&& sel_fold(orig.stream(), gkey, invert, None) == sel_fold(
                    cur.dv().stream(),
                    gkey,
                    invert,
                    match best {
                        None => None::<(ValM, ValM)>,
                        Some(b) => Some((b.0.dv(), b.1.dv())),
                    },
                )
            },
        decreases budget,
    {
        if budget == 0 {
            return Err(Error::InvalidArgument { context: Ctx::MinMax });
        }
        budget = budget - 1;
        let ghost pre = cur.dv();
        let step = cur.next();
        match step {
            None => {
                proof {
                    if orig.finite() && orig.rem() < usize::MAX {
                        assert(pre.stream() =~= Seq::<OutM>::empty());
                    }
                }
                return Ok(match best {
                    None => Value::Null,
                    Some(b) => b.0,
                });
            },
            Some(o) => {
                match collect_pair(o) {
                    Out::Error(e) => {
                        proof {
                            if orig.finite() && orig.rem() < usize::MAX {
                                assert(pre.stream()[0] == pre.mat(0));
                            }
                        }
                        return Err(e);
                    },
                    Out::Value(val) => {
                        proof {
                            if orig.finite() && orig.rem() < usize::MAX {
                                assert(pre.stream()[0] == pre.mat(0));
                                assert(pre.stream().drop_first() =~= cur.dv().stream());
                            }
                        }
                        let kv = match key {
                            None => val.dup(),
                            Some(f) => {
                                let mut args: Vec<Value> = Vec::new();
                                args.push(val.dup());
                                proof {
                                    lemma_seq_dv_index(args@, 0);
                                    assert(seq_dv(args@) =~= seq![args@[0].dv()]);
                                }
                                match run_callable(f, args) {
                                    Ok(k) => k,
                                    Err(e) => {
                                        return Err(e);
                                    },
                                }
                            },
                        };
                        match best {
                            None => {
                                best = Some((val, kv));
                            },
                            Some(b) => {
                                let cmp = run_binary_op(Op::Less, kv.dup(), b.1.dup());
                                match cmp {
                                    Ok(Value::Bool(true)) => {
                                        if invert {
                                            best = Some(b);
                                        } else {
                                            best = Some((val, kv));
                                        }
                                    },
                                    Ok(Value::Bool(false)) => {
                                        if invert {
                                            best = Some((val, kv));
                                        } else {
                                            best = Some(b);
                                        }
                                    },
                                    Ok(other) => {
                                        return Err(Error::TypeMismatch {
                                            expected: Expectation::BoolFromComparison,
                                            found: other.kind(),
                                        });
                                    },
                                    Err(e) => {
                                        return Err(e);
                                    },
                                }
                            },
                        }
                    },
                    Out::ValuePair(_, _) => {
                        proof {
                            assert(false);
                        }
                        return Err(Error::InvalidArgument { context: Ctx::MinMax });
                    },
                }
            },
        }
    }
}

/// The least element of an iterable, by the built-in strict order or
/// through a key callable; ties keep the first-seen element, and an empty
/// iterable yields Null, never a fault.
pub fn min(v: Value, key: Option<&Callable>) -> (r: Result<Value, Error>)
    ensures
        !iterable(v.dv()) ==> r is Err && r->Err_0 == not_iterable_err(v.dv()),
        iterable(v.dv()) && iter_model(v.dv()).finite() && iter_model(v.dv()).rem() < usize::MAX
            ==> match sel_fold(iter_model(v.dv()).stream(), opt_call_dv(key), false, None) {
            Ok(None) => r is Ok && r->Ok_0.dv() == ValM::Null,
            Ok(Some(best)) => r is Ok && r->Ok_0.dv() == best.0,
            Err(e) => r is Err && r->Err_0 == e,
        },
{
    select_extreme(v, key, false)
}

/// The greatest element of an iterable, by the built-in strict order or
/// through a key callable; ties keep the last-seen element, and an empty
/// iterable yields Null, never a fault.
pub fn max(v: Value, key: Option<&Callable>) -> (r: Result<Value, Error>)
    ensures
        !iterable(v.dv()) ==> r is Err && r->Err_0 == not_iterable_err(v.dv()),
        iterable(v.dv()) && iter_model(v.dv()).finite() && iter_model(v.dv()).rem() < usize::MAX
            ==> match sel_fold(iter_model(v.dv()).stream(), opt_call_dv(key), true, None) {
            Ok(None) => r is Ok && r->Ok_0.dv() == ValM::Null,
            Ok(Some(best)) => r is Ok && r->Ok_0.dv() == best.0,
            Err(e) => r is Err && r->Err_0 == e,
        },
{
    select_extreme(v, key, true)
}

/// The least and greatest elements of an iterable as a two-element tuple,
/// in one logical pass; an empty iterable yields Null, never a fault.
pub fn min_max(v: Value, key: Option<&Callable>) -> (r: Result<Value, Error>)
    ensures
        !iterable(v.dv()) ==> r is Err && r->Err_0 == not_iterable_err(v.dv()),
        iterable(v.dv()) && iter_model(v.dv()).finite() && iter_model(v.dv()).rem() < usize::MAX
            ==> match sel_fold(iter_model(v.dv()).stream(), opt_call_dv(key), false, None) {
            Ok(None) => r is Ok && r->Ok_0.dv() == ValM::Null,
            Ok(Some(least)) => match sel_fold(
                iter_model(v.dv()).stream(),
                opt_call_dv(key),
                true,
                None,
            ) {
                Ok(Some(greatest)) => r is Ok && r->Ok_0.dv() == ValM::Tuple(
                    seq![least.0, greatest.0],
                ),
                Ok(None) => false,
                Err(e) => r is Err && r->Err_0 == e,
            },
            Err(e) => r is Err && r->Err_0 == e,
        },
{
    let ghost m = v.dv();
    let mut probe = match make_iterator(v.dup()) {
        Err(e) => {
            return Err(e);
        },
        Ok(it) => it,
    };
    let first = probe.next();
    match first {
        None => {
            proof {
                if iterable(m) && iter_model(m).finite() && iter_model(m).rem() < usize::MAX {
                    assert(iter_model(m).stream() =~= Seq::<OutM>::empty());
                }
            }
            Ok(Value::Null)
        },
        Some(_) => {
            proof {
                if iterable(m) && iter_model(m).finite() && iter_model(m).rem() < usize::MAX {
                    lemma_sel_fold_not_none(
                        iter_model(m).stream(),
                        opt_call_dv(key),
                        false,
                    );
                    lemma_sel_fold_not_none(iter_model(m).stream(), opt_call_dv(key), true);
                }
            }
            let lo = match min(v.dup(), key) {
                Err(e) => {
                    return Err(e);
                },
                Ok(lo) => lo,
            };
            match max(v, key) {
                Err(e) => Err(e),
                Ok(hi) => {
                    let mut pair: Vec<Value> = Vec::new();
                    pair.push(lo);
                    pair.push(hi);
                    proof {
                        lemma_seq_dv_index(pair@, 0);
                        lemma_seq_dv_index(pair@, 1);
                        assert(seq_dv(pair@) =~= seq![pair@[0].dv(), pair@[1].dv()]);
                    }
                    Ok(Value::Tuple(pair))
                },
            }
        },
    }
}

/// Selection over a non-empty stream never comes back empty-handed, and a
/// selection that starts with something in hand keeps something in hand.
pub proof fn lemma_sel_fold_not_none(s: Seq<OutM>, key: Option<CallM>, invert: bool)
    requires
        s.len() >= 1,
    ensures
        !(sel_fold(s, key, invert, None) == Ok::<Option<(ValM, ValM)>, Error>(
            None::<(ValM, ValM)>,
        )),
{
    lemma_sel_fold_some_stays(s.drop_first(), key, invert);
    let c = collapse(s[0]);
    match c {
        OutM::E(_) => {},
        _ => {
            let kv: Result<ValM, Error> = match key {
                None => Ok(val_of(c)),
                Some(f) => call_spec(f, seq![val_of(c)]),
            };
            match kv {
                Err(_) => {},
                Ok(kvv) => {
                    assert(!(sel_fold(s.drop_first(), key, invert, Some((val_of(c), kvv)))
                        == Ok::<Option<(ValM, ValM)>, Error>(None::<(ValM, ValM)>)));
                },
            }
        },
    }
}

/// An accumulator already holding a candidate is never dropped.
proof fn lemma_sel_fold_some_stays(s: Seq<OutM>, key: Option<CallM>, invert: bool)
    ensures
        forall|b: (ValM, ValM)|
            !(#[trigger] sel_fold(s, key, invert, Some(b)) == Ok::<
                Option<(ValM, ValM)>,
                Error,
            >(None::<(ValM, ValM)>)),
    decreases s.len(),
{
    if s.len() > 0 {
        lemma_sel_fold_some_stays(s.drop_first(), key, invert);
    }
    assert forall|b: (ValM, ValM)|
        !(#[trigger] sel_fold(s, key, invert, Some(b)) == Ok::<Option<(ValM, ValM)>, Error>(
            None::<(ValM, ValM)>,
        )) by {
        if s.len() > 0 {
            let c = collapse(s[0]);
            match c {
                OutM::E(_) => {},
                _ => {
                    let kv: Result<ValM, Error> = match key {
                        None => Ok(val_of(c)),
                        Some(f) => call_spec(f, seq![val_of(c)]),
                    };
                    match kv {
                        Err(_) => {},
                        Ok(kvv) => {
                            match pick_step(b, (val_of(c), kvv), invert) {
                                Err(_) => {},
                                Ok(nw) => {
                                    assert(!(sel_fold(s.drop_first(), key, invert, Some(nw))
                                        == Ok::<Option<(ValM, ValM)>, Error>(
                                        None::<(ValM, ValM)>,
                                    )));
                                },
                            }
                        },
                    }
                },
            }
        }
    }
}

/// The window run over a cleanly drained upstream holds exactly
/// `max(0, len - n + 1)` groups, each a tuple of exactly `n` values.
pub proof fn lemma_windows_shape(vs: Seq<ValM>, n: int)
    requires
        n >= 1,
    ensures
        ({
            let w = windows_outs(vs, None, n);
            &&& w.len() == (if vs.len() >= n {
                vs.len() - n + 1
            } else {
                0
            })
            &&& forall|k: int|
                0 <= k < w.len() ==> (#[trigger] w[k]) is V && w[k]->V_0 is Tuple
                    && w[k]->V_0->Tuple_0.len() == n
        }),
{
    let w = windows_outs(vs, None, n);
    assert forall|k: int| 0 <= k < w.len() implies (#[trigger] w[k]) is V && w[k]->V_0 is Tuple
        && w[k]->V_0->Tuple_0.len() == n by {
        assert(w[k] == OutM::V(ValM::Tuple(vs.subrange(k, k + n))));
    }
}

/// The chunk run over a cleanly drained upstream holds the ceiling of
/// `len / n` groups, all of exactly `n` values except possibly a shorter
/// last one.
pub proof fn lemma_chunks_shape(vs: Seq<ValM>, n: int)
    requires
        n >= 1,
    ensures
        ({
            let c = chunks_outs(vs, None, n);
            &&& c.len() == (vs.len() + n - 1) / n
            &&& forall|k: int|
                0 <= k < c.len() ==> (#[trigger] c[k]) is V && c[k]->V_0 is Tuple
            &&& forall|k: int|
                0 <= k < c.len() - 1 ==> (#[trigger] c[k])->V_0->Tuple_0.len() == n
            &&& c.len() > 0 ==> 1 <= c.last()->V_0->Tuple_0.len() <= n
        }),
{
    let full = vs.len() as int / n;
    let tail_len = vs.len() - full * n;
    assert(full * n <= vs.len() && vs.len() < full * n + n && full >= 0) by (nonlinear_arith)
        requires
            n >= 1,
            full == vs.len() as int / n,
            vs.len() >= 0,
    ;
    let c = chunks_outs(vs, None, n);
    assert(c.len() == (vs.len() + n - 1) / n) by (nonlinear_arith)
        requires
            n >= 1,
            full * n <= vs.len() < full * n + n,
            full >= 0,
            c.len() == full + (if tail_len > 0 {
                1int
            } else {
                0int
            }),
            tail_len == vs.len() - full * n,
    ;
    assert forall|k: int| 0 <= k < c.len() implies (#[trigger] c[k]) is V && c[k]->V_0
        is Tuple by {
        if k < full {
            assert(c[k] == OutM::V(ValM::Tuple(vs.subrange(k * n, k * n + n))));
            assert(k * n >= 0 && k * n + n <= vs.len()) by (nonlinear_arith)
                requires
                    0 <= k < full,
                    n >= 1,
                    full * n <= vs.len(),
            ;
        }
    }
    assert forall|k: int| 0 <= k < c.len() - 1 implies (#[trigger] c[k])->V_0->Tuple_0.len()
        == n by {
        assert(k * n >= 0 && k * n + n <= vs.len()) by (nonlinear_arith)
            requires
                0 <= k < full,
                n >= 1,
                full * n <= vs.len(),
        ;
        assert(c[k] == OutM::V(ValM::Tuple(vs.subrange(k * n, k * n + n))));
    }
    if c.len() > 0 {
        if tail_len > 0 {
            assert(c.last() == OutM::V(ValM::Tuple(vs.subrange(full * n, vs.len() as int))));
        } else {
            assert(full >= 1);
            assert((full - 1) * n >= 0 && (full - 1) * n + n <= vs.len()) by (nonlinear_arith)
                requires
                    full >= 1,
                    n >= 1,
                    full * n <= vs.len(),
            ;
            assert(c.last() == OutM::V(
                ValM::Tuple(vs.subrange((full - 1) * n, (full - 1) * n + n)),
            ));
        }
    }
}

/// Reversing a cleanly drained run twice restores the original order.
pub proof fn lemma_reversed_twice(vs: Seq<ValM>)
    ensures
        ({
            let once = IterM::Reversed { outputs: outs_model(vs, None) };
            &&& once.finite()
            &&& drain_vals(once.stream()) is Ok
            &&& ({
                let rv = drain_vals(once.stream())->Ok_0;
                let twice = IterM::Reversed { outputs: outs_model(rv, None) };
                drain_vals(twice.stream()) == Ok::<Seq<ValM>, Error>(vs)
            })
        }),
{
    let once = IterM::Reversed { outputs: outs_model(vs, None) };
    assert(once.rem() == vs.len());
    assert forall|k: int| 0 <= k < once.stream().len() implies #[trigger] once.stream()[k]
        is V by {
        assert(once.stream()[k] == once.mat(k));
        assert(once.mat(k) == outs_model(vs, None)[vs.len() - 1 - k]);
    }
    lemma_drain_values(once.stream());
    let rv = drain_vals(once.stream())->Ok_0;
    assert(rv.len() == vs.len());
    assert forall|k: int| 0 <= k < vs.len() implies rv[k] == vs[vs.len() - 1 - k] by {
        assert(rv[k] == val_of(once.mat(k)));
        assert(once.mat(k) == outs_model(vs, None)[vs.len() - 1 - k]);
    }
    let twice = IterM::Reversed { outputs: outs_model(rv, None) };
    assert(twice.rem() == vs.len());
    assert forall|k: int| 0 <= k < twice.stream().len() implies #[trigger] twice.stream()[k]
        is V by {
        assert(twice.stream()[k] == twice.mat(k));
        assert(twice.mat(k) == outs_model(rv, None)[rv.len() - 1 - k]);
    }
    lemma_drain_values(twice.stream());
    assert(Seq::new(twice.stream().len(), |k: int| val_of(twice.stream()[k])) =~= vs) by {
        assert forall|k: int| 0 <= k < vs.len() implies val_of(twice.stream()[k]) == vs[k] by {
            assert(twice.stream()[k] == twice.mat(k));
            assert(twice.mat(k) == outs_model(rv, None)[rv.len() - 1 - k]);
            assert(rv[vs.len() - 1 - k] == vs[k]);
        }
    }
}

/// Draining a stream whose first fault stands at position `j` fails with
/// exactly that fault.
pub proof fn lemma_drain_first_err(s: Seq<OutM>, j: int)
    requires
        0 <= j < s.len(),
        collapse(s[j]) is E,
        forall|t: int| 0 <= t < j ==> !(#[trigger] collapse(s[t]) is E),
    ensures
        drain_vals(s) == Err::<Seq<ValM>, Error>(collapse(s[j])->E_0),
    decreases j,
{
    if j > 0 {
        assert(s.drop_first()[j - 1] == s[j]);
        assert forall|t: int| 0 <= t < j - 1 implies !(#[trigger] collapse(
            s.drop_first()[t],
        ) is E) by {
            assert(s.drop_first()[t] == s[t + 1]);
        }
        lemma_drain_first_err(s.drop_first(), j - 1);
    }
}

/// A fault raised by the mapping callable at the first faulting element
/// makes the drain of the mapped stream fail with exactly that fault.
pub proof fn lemma_each_fault(m: IterM, f: CallM, j: int)
    requires
        m.modeled(),
        m.mlen() is Some,
        0 <= j < m.rem(),
        forall|t: int|
            0 <= t < j ==> !(#[trigger] collapse(m.mat(t)) is E) && call_spec(
                f,
                seq![val_of(collapse(m.mat(t)))],
            ) is Ok,
        !(collapse(m.mat(j)) is E),
        call_spec(f, seq![val_of(collapse(m.mat(j)))]) is Err,
    ensures
        ({
            let em = IterM::Each { inner: Box::new(m), f };
            &&& em.finite()
            &&& drain_vals(em.stream()) == Err::<Seq<ValM>, Error>(
                call_spec(f, seq![val_of(collapse(m.mat(j)))])->Err_0,
            )
        }),
{
    let em = IterM::Each { inner: Box::new(m), f };
    assert(em.rem() == m.rem());
    assert forall|t: int| 0 <= t < j implies !(#[trigger] collapse(em.stream()[t]) is E) by {
        assert(em.stream()[t] == each_out(f, m.mat(t)));
        assert(!(collapse(m.mat(t)) is E));
        assert(call_spec(f, seq![val_of(collapse(m.mat(t)))]) is Ok);
    }
    assert(em.stream()[j] == each_out(f, m.mat(j)));
    assert(collapse(em.stream()[j]) is E);
    lemma_drain_first_err(em.stream(), j);
}

/// A fault raised by the filtering predicate, after a run of accepted
/// values, cuts the filtered stream at exactly that fault, so a consuming
/// drain fails with it.
pub proof fn lemma_filter_fault(f: CallM, s: Seq<OutM>, j: int, while_form: bool)
    requires
        0 <= j < s.len(),
        forall|t: int|
            0 <= t < j ==> !(#[trigger] collapse(s[t]) is E) && call_spec(
                f,
                seq![val_of(collapse(s[t]))],
            ) == Ok::<ValM, Error>(ValM::Bool(true)),
        !(collapse(s[j]) is E),
        call_spec(f, seq![val_of(collapse(s[j]))]) is Err,
    ensures
        keep_filter(f, s, while_form) == s.subrange(0, j).push(
            OutM::E(call_spec(f, seq![val_of(collapse(s[j]))])->Err_0),
        ),
        drain_vals(keep_filter(f, s, while_form)) == Err::<Seq<ValM>, Error>(
            call_spec(f, seq![val_of(collapse(s[j]))])->Err_0,
        ),
    decreases j,
{
    let e = call_spec(f, seq![val_of(collapse(s[j]))])->Err_0;
    if j == 0 {
        assert(keep_filter(f, s, while_form) =~= s.subrange(0, 0).push(OutM::E(e)));
    } else {
        assert(s.drop_first()[j - 1] == s[j]);
        assert forall|t: int|
            0 <= t < j - 1 implies !(#[trigger] collapse(s.drop_first()[t]) is E) && call_spec(
            f,
            seq![val_of(collapse(s.drop_first()[t]))],
        ) == Ok::<ValM, Error>(ValM::Bool(true)) by {
            assert(s.drop_first()[t] == s[t + 1]);
        }
        lemma_filter_fault(f, s.drop_first(), j - 1, while_form);
        assert(keep_filter(f, s, while_form) == seq![s[0]] + keep_filter(
            f,
            s.drop_first(),
            while_form,
        ));
        assert(seq![s[0]] + s.drop_first().subrange(0, j - 1).push(OutM::E(e)) =~= s.subrange(
            0,
            j,
        ).push(OutM::E(e)));
    }
    let cut = s.subrange(0, j).push(OutM::E(e));
    assert(collapse(cut[j]) is E);
    assert forall|t: int| 0 <= t < j implies !(#[trigger] collapse(cut[t]) is E) by {
        assert(cut[t] == s[t]);
    }
    lemma_drain_first_err(cut, j);
}

/// Every output of an all-values stream survives the fault filter.
proof fn lemma_nonerr_id(s: Seq<OutM>)
    requires
        forall|k: int| 0 <= k < s.len() ==> (#[trigger] s[k]) is V,
    ensures
        nonerr(s) == s,
    decreases s.len(),
{
    if s.len() > 0 {
        assert forall|k: int| 0 <= k < s.drop_first().len() implies (#[trigger] s.drop_first()[k])
            is V by {
            assert(s.drop_first()[k] == s[k + 1]);
        }
        lemma_nonerr_id(s.drop_first());
        assert(seq![s[0]] + s.drop_first() =~= s);
    }
}

/// A cycle over a non-empty, all-values upstream, taken `t` times, yields
/// the upstream's values over and over, in order.
pub proof fn lemma_cycle_take(m: IterM, t: int)
    requires
        m.modeled(),
        m.mlen() is Some,
        m.rem() >= 1,
        0 <= t,
        forall|k: int| 0 <= k < m.rem() ==> (#[trigger] m.mat(k)) is V,
    ensures
        ({
            let c = IterM::Cycle {
                inner: Box::new(m),
                buffer: Seq::empty(),
                pos: 0,
                replaying: false,
            };
            let tk = IterM::TakeN { inner: Box::new(c), remaining: t };
            &&& tk.finite()
            &&& tk.rem() == t
            &&& drain_vals(tk.stream()) == Ok::<Seq<ValM>, Error>(
                Seq::new(t as nat, |k: int| val_of(m.mat(k % m.rem() as int))),
            )
        }),
{
    let n = m.rem() as int;
    let c = IterM::Cycle { inner: Box::new(m), buffer: Seq::empty(), pos: 0, replaying: false };
    let tk = IterM::TakeN { inner: Box::new(c), remaining: t };
    reveal_with_fuel(IterM::modeled, 3);
    reveal_with_fuel(IterM::mlen, 3);
    reveal_with_fuel(IterM::mat, 3);
    lemma_stream_pre(m, n);
    assert forall|k: int| 0 <= k < stream_pre(m, n).len() implies (#[trigger] stream_pre(m, n)[k])
        is V by {
        assert(stream_pre(m, n)[k] == m.mat(k));
    }
    lemma_nonerr_id(stream_pre(m, n));
    let all = Seq::<OutM>::empty() + nonerr(stream_pre(m, n));
    assert(all =~= stream_pre(m, n));
    assert(c.mlen() is None);
    assert(tk.rem() == t);
    assert forall|k: int| 0 <= k < t implies #[trigger] tk.stream()[k] == OutM::V(
        val_of(m.mat(k % n)),
    ) by {
        assert(tk.stream()[k] == tk.mat(k));
        assert(tk.mat(k) == c.mat(k));
        vstd::arithmetic::div_mod::lemma_mod_bound(k, n);
        if k < n {
            vstd::arithmetic::div_mod::lemma_small_mod(k as nat, n as nat);
            assert(c.mat(k) == m.mat(k));
            assert(m.mat(k) is V);
            assert(m.mat(k % n) == m.mat(k));
        } else {
            assert(c.mat(k) == all[(k - n) % all.len() as int]);
            assert(all.len() == n);
            vstd::arithmetic::div_mod::lemma_mod_sub_multiples_vanish(k, n);
            assert((k - n) % n == k % n);
            assert(all[k % n] == stream_pre(m, n)[k % n]);
            assert(stream_pre(m, n)[k % n] == m.mat(k % n));
            assert(m.mat(k % n) is V);
        }
    }
    assert forall|k: int| 0 <= k < tk.stream().len() implies (#[trigger] tk.stream()[k])
        is V by {}
    lemma_drain_values(tk.stream());
    assert(Seq::new(tk.stream().len(), |k: int| val_of(tk.stream()[k])) =~= Seq::new(
        t as nat,
        |k: int| val_of(m.mat(k % n)),
    ));
}

/// Pulls a single output from the back of an iterable value: the produced
/// value, Null when the value is exhausted or supports only forward
/// draining, or the fault.
pub fn next_back(v: Value) -> (r: Result<Value, Error>)
    ensures
        !iterable(v.dv()) ==> r is Err && r->Err_0 == not_iterable_err(v.dv()),
        iterable(v.dv()) && iter_model(v.dv()).modeled() && iter_model(v.dv()).bidir()
            && iter_model(v.dv()).mlen() is Some ==> {
            let m = iter_model(v.dv());
            if m.mlen() == Some(0nat) {
                r is Ok && r->Ok_0.dv() == ValM::Null
            } else {
                match collapse(m.mat(m.rem() - 1)) {
                    OutM::E(e) => r is Err && r->Err_0 == e,
                    c => r is Ok && r->Ok_0.dv() == val_of(c),
                }
            }
        },
{
    match make_iterator(v) {
        Err(e) => Err(e),
        Ok(mut it) => {
            let o = it.next_back();
            iter_output_to_result(o)
        },
    }
}

/// Whether every value satisfies the predicate: a refusal answers early
/// with false, a fault - from upstream, from the predicate, or a
/// non-boolean answer - aborts with the fault.
pub open spec fn all_spec(f: CallM, s: Seq<OutM>) -> Result<bool, Error>
    decreases s.len(),
{
    if s.len() == 0 {
        Ok(true)
    } else {
        let c = collapse(s[0]);
        match c {
            OutM::E(e) => Err(e),
            _ => match call_spec(f, seq![val_of(c)]) {
                Ok(ValM::Bool(true)) => all_spec(f, s.drop_first()),
                Ok(ValM::Bool(false)) => Ok(false),
                Ok(other) => Err(Error::TypeMismatch {
                    expected: Expectation::BoolFromPredicate,
                    found: kind_of(other),
                }),
                Err(e) => Err(e),
            },
        }
    }
}

/// Whether some value satisfies the predicate: an acceptance answers early
/// with true.
pub open spec fn any_spec(f: CallM, s: Seq<OutM>) -> Result<bool, Error>
    decreases s.len(),
{
    if s.len() == 0 {
        Ok(false)
    } else {
        let c = collapse(s[0]);
        match c {
            OutM::E(e) => Err(e),
            _ => match call_spec(f, seq![val_of(c)]) {
                Ok(ValM::Bool(true)) => Ok(true),
                Ok(ValM::Bool(false)) => any_spec(f, s.drop_first()),
                Ok(other) => Err(Error::TypeMismatch {
                    expected: Expectation::BoolFromPredicate,
                    found: kind_of(other),
                }),
                Err(e) => Err(e),
            },
        }
    }
}

/// The first value the predicate accepts, Null when none is.
pub open spec fn find_spec(f: CallM, s: Seq<OutM>) -> Result<ValM, Error>
    decreases s.len(),
{
    if s.len() == 0 {
        Ok(ValM::Null)
    } else {
        let c = collapse(s[0]);
        match c {
            OutM::E(e) => Err(e),
            _ => match call_spec(f, seq![val_of(c)]) {
                Ok(ValM::Bool(true)) => Ok(val_of(c)),
                Ok(ValM::Bool(false)) => find_spec(f, s.drop_first()),
                Ok(other) => Err(Error::TypeMismatch {
                    expected: Expectation::BoolFromPredicate,
                    found: kind_of(other),
                }),
                Err(e) => Err(e),
            },
        }
    }
}

/// The position of the first value the predicate accepts, Null when none
/// is; a position past the machine's number range is rejected.
pub open spec fn position_spec(f: CallM, s: Seq<OutM>, base: int) -> Result<ValM, Error>
    recommends
        0 <= base <= i64::MAX,
    decreases s.len(),
{
    if s.len() == 0 {
        Ok(ValM::Null)
    } else {
        let c = collapse(s[0]);
        match c {
            OutM::E(e) => Err(e),
            _ => match call_spec(f, seq![val_of(c)]) {
                Ok(ValM::Bool(true)) => Ok(ValM::Num(base as i64)),
                Ok(ValM::Bool(false)) => if base + 1 > i64::MAX {
                    Err(Error::InvalidArgument { context: Ctx::Count })
                } else {
                    position_spec(f, s.drop_first(), base + 1)
                },
                Ok(other) => Err(Error::TypeMismatch {
                    expected: Expectation::BoolFromPredicate,
                    found: kind_of(other),
                }),
                Err(e) => Err(e),
            },
        }
    }
}

/// Runs a predicate-driven consumer: `mode` picks the answer shape.
#[verifier::loop_isolation(false)]
fn scan_with_predicate(v: Value, f: &Callable, mode: u8) -> (r: Result<Value, Error>)
    requires
        mode == 1 || mode == 2 || mode == 3 || mode == 4,
    ensures
        !iterable(v.dv()) ==> r is Err && r->Err_0 == not_iterable_err(v.dv()),
        iterable(v.dv()) && iter_model(v.dv()).finite() && iter_model(v.dv()).rem() < usize::MAX
            ==> {
            let s = iter_model(v.dv()).stream();
            let want: Result<ValM, Error> = if mode == 1 {
                match all_spec(f.dv(), s) {
                    Ok(b) => Ok(ValM::Bool(b)),
                    Err(e) => Err(e),
                }
            } else if mode == 2 {
                match any_spec(f.dv(), s) {
                    Ok(b) => Ok(ValM::Bool(b)),
                    Err(e) => Err(e),
                }
            } else if mode == 3 {
                find_spec(f.dv(), s)
            } else {
                position_spec(f.dv(), s, 0)
            };
            match want {
                Ok(m) => r is Ok && r->Ok_0.dv() == m,
                Err(e) => r is Err && r->Err_0 == e,
            }
        },
{
    let ghost m = v.dv();
    let mut cur = match make_iterator(v) {
        Err(e) => {
            return Err(e);
        },
        Ok(it) => it,
    };
    let ghost orig = cur.dv();
    let mut budget: usize = usize::MAX;
    let mut index: i64 = 0;
    loop
        invariant
            orig == iter_model(m),
            mode == 1 || mode == 2 || mode == 3 || mode == 4,
            index >= 0,
            orig.finite() && orig.rem() < usize::MAX ==> {
                &&& cur.dv().modeled()
                &&& cur.dv().mlen() is Some
                &&& cur.dv().rem() < budget
                &&& mode == 1 ==> all_spec(f.dv(), orig.stream()) == all_spec(
                    f.dv(),
                    cur.dv().stream(),
                )
                &&& mode == 2 ==> any_spec(f.dv(), orig.stream()) == any_spec(
                    f.dv(),
                    cur.dv().stream(),
                )
                &&& mode == 3 ==> find_spec(f.dv(), orig.stream()) == find_spec(
                    f.dv(),
                    cur.dv().stream(),
                )
                &&& mode == 4 ==> position_spec(f.dv(), orig.stream(), 0) == position_spec(
                    f.dv(),
                    cur.dv().stream(),
                    index as int,
                )
            },
        decreases budget,
    {
        if budget == 0 {
            return Err(Error::InvalidArgument { context: Ctx::Count });
        }
        budget = budget - 1;
        let ghost pre = cur.dv();
        let step = cur.next();
        match step {
            None => {
                proof {
                    if orig.finite() && orig.rem() < usize::MAX {
                        assert(pre.stream() =~= Seq::<OutM>::empty());
                    }
                }
                return Ok(
                    if mode == 1 {
                        Value::Bool(true)
                    } else if mode == 2 {
                        Value::Bool(false)
                    } else {
                        Value::Null
                    },
                );
            },
            Some(o) => {
                match collect_pair(o) {
                    Out::Error(e) => {
                        proof {
                            if orig.finite() && orig.rem() < usize::MAX {
                                assert(pre.stream()[0] == pre.mat(0));
                            }
                        }
                        return Err(e);
                    },
                    Out::Value(val) => {
                        proof {
                            if orig.finite() && orig.rem() < usize::MAX {
                                assert(pre.stream()[0] == pre.mat(0));
                                assert(pre.stream().drop_first() =~= cur.dv().stream());
                            }
                        }
                        let keep_going = {
                            let mut args: Vec<Value> = Vec::new();
                            args.push(val.dup());
                            proof {
                                lemma_seq_dv_index(args@, 0);
                                assert(seq_dv(args@) =~= seq![args@[0].dv()]);
                            }
                            match run_callable(f, args) {
                                Ok(Value::Bool(b)) => b,
                                Ok(other) => {
                                    proof {
                                        crate::value::lemma_kind_dv(other);
                                    }
                                    return Err(Error::TypeMismatch {
                                        expected: Expectation::BoolFromPredicate,
                                        found: other.kind(),
                                    });
                                },
                                Err(e) => {
                                    return Err(e);
                                },
                            }
                        };
                        if mode == 1 {
                            if !keep_going {
                                return Ok(Value::Bool(false));
                            }
                        } else if mode == 2 {
                            if keep_going {
                                return Ok(Value::Bool(true));
                            }
                        } else if mode == 3 {
                            if keep_going {
                                return Ok(val);
                            }
                        } else {
                            if keep_going {
                                return Ok(Value::Number(index));
                            }
                        }
                        if mode == 4 {
                            if index < i64::MAX {
                                index = index + 1;
                            } else {
                                return Err(Error::InvalidArgument { context: Ctx::Count });
                            }
                        }
                    },
                    Out::ValuePair(_, _) => {
                        proof {
                            assert(false);
                        }
                        return Err(Error::InvalidArgument { context: Ctx::Count });
                    },
                }
            },
        }
    }
}

/// Whether every value of an iterable satisfies the predicate.
pub fn all(v: Value, predicate: &Callable) -> (r: Result<Value, Error>)
    ensures
        !iterable(v.dv()) ==> r is Err && r->Err_0 == not_iterable_err(v.dv()),
        iterable(v.dv()) && iter_model(v.dv()).finite() && iter_model(v.dv()).rem() < usize::MAX
            ==> match all_spec(predicate.dv(), iter_model(v.dv()).stream()) {
            Ok(b) => r is Ok && r->Ok_0.dv() == ValM::Bool(b),
            Err(e) => r is Err && r->Err_0 == e,
        },
{
    scan_with_predicate(v, predicate, 1)
}

/// Whether some value of an iterable satisfies the predicate.
pub fn any(v: Value, predicate: &Callable) -> (r: Result<Value, Error>)
    ensures
        !iterable(v.dv()) ==> r is Err && r->Err_0 == not_iterable_err(v.dv()),
        iterable(v.dv()) && iter_model(v.dv()).finite() && iter_model(v.dv()).rem() < usize::MAX
            ==> match any_spec(predicate.dv(), iter_model(v.dv()).stream()) {
            Ok(b) => r is Ok && r->Ok_0.dv() == ValM::Bool(b),
            Err(e) => r is Err && r->Err_0 == e,
        },
{
    scan_with_predicate(v, predicate, 2)
}

/// The first value of an iterable the predicate accepts, Null when none is.
pub fn find(v: Value, predicate: &Callable) -> (r: Result<Value, Error>)
    ensures
        !iterable(v.dv()) ==> r is Err && r->Err_0 == not_iterable_err(v.dv()),
        iterable(v.dv()) && iter_model(v.dv()).finite() && iter_model(v.dv()).rem() < usize::MAX
            ==> match find_spec(predicate.dv(), iter_model(v.dv()).stream()) {
            Ok(m) => r is Ok && r->Ok_0.dv() == m,
            Err(e) => r is Err && r->Err_0 == e,
        },
{
    scan_with_predicate(v, predicate, 3)
}

/// The position of the first value of an iterable the predicate accepts,
/// Null when none is.
pub fn position(v: Value, predicate: &Callable) -> (r: Result<Value, Error>)
    ensures
        !iterable(v.dv()) ==> r is Err && r->Err_0 == not_iterable_err(v.dv()),
        iterable(v.dv()) && iter_model(v.dv()).finite() && iter_model(v.dv()).rem() < usize::MAX
            ==> match position_spec(predicate.dv(), iter_model(v.dv()).stream(), 0) {
            Ok(m) => r is Ok && r->Ok_0.dv() == m,
            Err(e) => r is Err && r->Err_0 == e,
        },
{
    scan_with_predicate(v, predicate, 4)
}

/// The last value of an iterable, Null when it is empty; the first fault
/// aborts.
pub fn last(v: Value) -> (r: Result<Value, Error>)
    ensures
        !iterable(v.dv()) ==> r is Err && r->Err_0 == not_iterable_err(v.dv()),
        iterable(v.dv()) && iter_model(v.dv()).finite() && iter_model(v.dv()).rem() < usize::MAX
            ==> match drain_vals(iter_model(v.dv()).stream()) {
            Ok(vs) => r is Ok && r->Ok_0.dv() == (if vs.len() > 0 {
                vs.last()
            } else {
                ValM::Null
            }),
            Err(e) => r is Err && r->Err_0 == e,
        },
{
    match make_iterator(v) {
        Err(e) => Err(e),
        Ok(it) => match drain_to_vec(it, Ctx::ToList) {
            Err(e) => Err(e),
            Ok(mut vs) => {
                let ghost gvs = vs@;
                proof {
                    lemma_seq_dv_len(gvs);
                }
                match vs.pop() {
                    Some(x) => {
                        proof {
                            assert(gvs =~= vs@.push(x));
                            lemma_seq_dv_index(gvs, gvs.len() - 1);
                        }
                        Ok(x)
                    },
                    None => Ok(Value::Null),
                }
            },
        },
    }
}

/// Drains an iterable for its effects alone, answering Null; with a
/// consumer callable, each value is handed to it in turn and the answers
/// are discarded. The first fault - from upstream or from the consumer -
/// aborts with that fault.
pub fn consume(v: Value, f: Option<&Callable>) -> (r: Result<Value, Error>)
    ensures
        !iterable(v.dv()) ==> r is Err && r->Err_0 == not_iterable_err(v.dv()),
        iterable(v.dv()) && iter_model(v.dv()).finite() && iter_model(v.dv()).rem() < usize::MAX
            ==> {
            let s = match f {
                None => iter_model(v.dv()).stream(),
                Some(g) => IterM::Each {
                    inner: Box::new(iter_model(v.dv())),
                    f: g.dv(),
                }.stream(),
            };
            match drain_vals(s) {
                Ok(_) => r is Ok && r->Ok_0.dv() == ValM::Null,
                Err(e) => r is Err && r->Err_0 == e,
            }
        },
{
    let it = match make_iterator(v) {
        Err(e) => {
            return Err(e);
        },
        Ok(it) => it,
    };
    let it = match f {
        None => it,
        Some(g) => Iter::Each { inner: Box::new(it), f: g.dup() },
    };
    match drain_to_vec(it, Ctx::ToList) {
        Err(e) => Err(e),
        Ok(_) => Ok(Value::Null),
    }
}

/// The position of the first fault among the first `cut` outputs, if any.
pub open spec fn first_fault_before(s: Seq<OutM>, cut: int) -> Option<int>
    decreases s.len(),
{
    if cut <= 0 || s.len() == 0 {
        None
    } else if collapse(s[0]) is E {
        Some(0)
    } else {
        match first_fault_before(s.drop_first(), cut - 1) {
            Some(j) => Some(j + 1),
            None => None,
        }
    }
}

/// A found first fault lies in range, is a fault, and nothing before it is.
proof fn lemma_first_fault_props(s: Seq<OutM>, cut: int)
    ensures
        match first_fault_before(s, cut) {
            Some(j) => 0 <= j < cut && j < s.len() && collapse(s[j]) is E && forall|t: int|
                0 <= t < j ==> !((#[trigger] collapse(s[t])) is E),
            None => forall|t: int|
                0 <= t < cut && t < s.len() ==> !((#[trigger] collapse(s[t])) is E),
        },
    decreases s.len(),
{
    if cut > 0 && s.len() > 0 && !(collapse(s[0]) is E) {
        lemma_first_fault_props(s.drop_first(), cut - 1);
        match first_fault_before(s, cut) {
            Some(j) => {
                assert forall|t: int| 0 <= t < j implies !((#[trigger] collapse(s[t])) is E) by {
                    if t > 0 {
                        assert(s.drop_first()[t - 1] == s[t]);
                        assert(!(collapse(s.drop_first()[t - 1]) is E));
                    }
                }
            },
            None => {
                assert forall|t: int| 0 <= t < cut && t < s.len() implies !((#[trigger] collapse(
                    s[t],
                )) is E) by {
                    if t > 0 {
                        assert(s.drop_first()[t - 1] == s[t]);
                        assert(!(collapse(s.drop_first()[t - 1]) is E));
                    }
                }
            },
        }
    }
}

/// Skips past the first `n` outputs of an iterable eagerly and hands back
/// the advanced handle; the first fault among the skipped outputs aborts
/// with exactly that fault.
#[verifier::loop_isolation(false)]
#[verifier::rlimit(60)]
pub fn skip(v: Value, n: usize) -> (r: Result<Value, Error>)
    ensures
        !iterable(v.dv()) ==> r is Err && r->Err_0 == not_iterable_err(v.dv()),
        iterable(v.dv()) && iter_model(v.dv()).finite() && iter_model(v.dv()).rem() < usize::MAX
            ==> {
            let s = iter_model(v.dv()).stream();
            let cut = if n <= iter_model(v.dv()).rem() {
                n as int
            } else {
                iter_model(v.dv()).rem() as int
            };
            match first_fault_before(s, cut) {
                Some(jf) => r is Err && r->Err_0 == collapse(s[jf])->E_0,
                None => 
                r is Ok && (r->Ok_0 matches Value::Iterator(b) ==> ({
                    let bm = b.dv();
                    &&& bm.modeled()
                    &&& bm.mlen() == Some((iter_model(v.dv()).rem() - cut) as nat)
                    &&& forall|k: int|
                        0 <= k < bm.rem() ==> #[trigger] bm.mat(k) == iter_model(v.dv()).mat(
                            k + cut,
                        )
                })) && r->Ok_0 is Iterator,
            }
        },
{
    let ghost m = v.dv();
    let mut cur = match make_iterator(v) {
        Err(e) => {
            return Err(e);
        },
        Ok(it) => it,
    };
    let ghost orig = cur.dv();
    let mut i: usize = 0;
    while i < n
        invariant
            i <= n,
            orig == iter_model(m),
            orig.finite() && orig.rem() < usize::MAX ==> {
                &&& cur.dv().modeled()
                &&& cur.dv().mlen() is Some
                &&& i as int <= orig.rem()
                &&& cur.dv().rem() == orig.rem() - i
                &&& forall|k: int|
                    0 <= k < cur.dv().rem() ==> #[trigger] cur.dv().mat(k) == orig.mat(k + i)
                &&& forall|j: int| 0 <= j < i ==> !((#[trigger] collapse(orig.stream()[j])) is E)
            },
        decreases n - i,
    {
        let ghost pre = cur.dv();
        let step = cur.next();
        match step {
            None => {
                proof {
                    if orig.finite() && orig.rem() < usize::MAX {
                        assert(pre.mlen() == Some(0nat));
                        let cut: int = if n <= orig.rem() {
                            n as int
                        } else {
                            orig.rem() as int
                        };
                        lemma_first_fault_props(orig.stream(), cut);
                        match first_fault_before(orig.stream(), cut) {
                            Some(jf) => {
                                assert(!(collapse(orig.stream()[jf]) is E));
                            },
                            None => {},
                        }
                    }
                }
                return Ok(Value::Iterator(Box::new(cur)));
            },
            Some(o) => {
                if is_error(&o) {
                    proof {
                        if orig.finite() && orig.rem() < usize::MAX {
                            assert(orig.stream()[i as int] == orig.mat(i as int));
                            assert(collapse(orig.stream()[i as int]) is E);
                            let cut: int = if n <= orig.rem() {
                                n as int
                            } else {
                                orig.rem() as int
                            };
                            lemma_first_fault_props(orig.stream(), cut);
                            match first_fault_before(orig.stream(), cut) {
                                Some(jf) => {
                                    if jf < i {
                                        assert(!(collapse(orig.stream()[jf]) is E));
                                    }
                                    if jf > i {
                                        assert(!(collapse(orig.stream()[i as int]) is E));
                                    }
                                },
                                None => {
                                    assert(!(collapse(orig.stream()[i as int]) is E));
                                },
                            }
                        }
                    }
                    let e = match o {
                        Out::Error(e) => e,
                        _ => Error::InvalidArgument { context: Ctx::Skip },
                    };
                    return Err(e);
                }
                proof {
                    if orig.finite() && orig.rem() < usize::MAX {
                        assert(orig.stream()[i as int] == orig.mat(i as int));
                        assert forall|k: int| 0 <= k < cur.dv().rem() implies #[trigger] cur.dv().mat(
                            k,
                        ) == orig.mat(k + i + 1) by {
                            assert(cur.dv().mat(k) == pre.mat(k + 1));
                        }
                    }
                }
                i = i + 1;
            },
        }
    }
    proof {
        if orig.finite() && orig.rem() < usize::MAX {
            let cut: int = if n <= orig.rem() {
                n as int
            } else {
                orig.rem() as int
            };
            lemma_first_fault_props(orig.stream(), cut);
            match first_fault_before(orig.stream(), cut) {
                Some(jf) => {
                    assert(!(collapse(orig.stream()[jf]) is E));
                },
                None => {},
            }
        }
    }
    Ok(Value::Iterator(Box::new(cur)))
}

/// How one drained value joins a map under construction: a two-element
/// tuple is a key-value entry, anything else is a key with a Null value;
/// a non-keyable key aborts.
pub open spec fn to_map_step(entries: Seq<(ValM, ValM)>, v: ValM) -> Result<
    Seq<(ValM, ValM)>,
    Error,
> {
    let kv: (ValM, ValM) = match v {
        ValM::Tuple(t) => if t.len() == 2 {
            (t[0], t[1])
        } else {
            (v, ValM::Null)
        },
        _ => (v, ValM::Null),
    };
    if !keyable(kv.0) {
        Err(crate::dict::bad_key_err(kv.0))
    } else {
        match crate::ops::find_entry(entries, kv.0) {
            Some(j) => Ok(entries.update(j, (entries[j].0, kv.1))),
            None => Ok(entries.push(kv)),
        }
    }
}

/// The entries a drained run builds up, left to right.
pub open spec fn to_map_fold(entries: Seq<(ValM, ValM)>, vs: Seq<ValM>) -> Result<
    Seq<(ValM, ValM)>,
    Error,
>
    decreases vs.len(),
{
    if vs.len() == 0 {
        Ok(entries)
    } else {
        match to_map_step(entries, vs[0]) {
            Ok(e2) => to_map_fold(e2, vs.drop_first()),
            Err(e) => Err(e),
        }
    }
}

/// The entries after feeding a drained run into a map, together with the
/// first fault met on the way: the insertions made before the fault stay.
pub open spec fn extend_run(entries: Seq<(ValM, ValM)>, vs: Seq<ValM>) -> (
    Seq<(ValM, ValM)>,
    Option<Error>,
)
    decreases vs.len(),
{
    if vs.len() == 0 {
        (entries, None)
    } else {
        match to_map_step(entries, vs[0]) {
            Ok(e2) => extend_run(e2, vs.drop_first()),
            Err(e) => (entries, Some(e)),
        }
    }
}

/// Inserts one drained value into a map under construction.
fn insert_drained(d: &mut Dict, v: Value) -> (r: Result<(), Error>)
    ensures
        final(d).dv().meta == old(d).dv().meta,
        match to_map_step(old(d).dv().entries, v.dv()) {
            Ok(e2) => r is Ok && final(d).dv().entries == e2,
            Err(e) => r is Err && r->Err_0 == e && final(d).dv() == old(d).dv(),
        },
{
    let tuple2 = match &v {
        Value::Tuple(t) => {
            proof {
                lemma_seq_dv_len(t@);
            }
            t.len() == 2
        },
        _ => false,
    };
    let (k, value) = if tuple2 {
        match &v {
            Value::Tuple(t) => {
                proof {
                    lemma_seq_dv_len(t@);
                    lemma_seq_dv_index(t@, 0);
                    lemma_seq_dv_index(t@, 1);
                }
                (t[0].dup(), t[1].dup())
            },
            _ => (Value::Null, Value::Null),
        }
    } else {
        (v.dup(), Value::Null)
    };
    proof {
        crate::ops::lemma_find_entry_in_range(d.dv().entries, k.dv());
        assert(to_map_step(d.dv().entries, v.dv()) == (if !keyable(k.dv()) {
            Err::<Seq<(ValM, ValM)>, Error>(crate::dict::bad_key_err(k.dv()))
        } else {
            match crate::ops::find_entry(d.dv().entries, k.dv()) {
                Some(j) => Ok::<Seq<(ValM, ValM)>, Error>(
                    d.dv().entries.update(j, (d.dv().entries[j].0, value.dv())),
                ),
                None => Ok::<Seq<(ValM, ValM)>, Error>(
                    d.dv().entries.push((k.dv(), value.dv())),
                ),
            }
        }));
    }
    match d.insert(k, value) {
        Ok(_) => Ok(()),
        Err(e) => Err(e),
    }
}

/// Drains an iterable into a fresh map: paired productions and two-element
/// tuples become entries, other values become keys with Null values, and a
/// repeated key keeps its place with the later value.
#[verifier::loop_isolation(false)]
pub fn to_map(v: Value) -> (r: Result<Value, Error>)
    ensures
        !iterable(v.dv()) ==> r is Err && r->Err_0 == not_iterable_err(v.dv()),
        iterable(v.dv()) && iter_model(v.dv()).finite() && iter_model(v.dv()).rem() < usize::MAX
            ==> match drain_vals(iter_model(v.dv()).stream()) {
            Ok(vs) => match to_map_fold(Seq::empty(), vs) {
                Ok(es) => r is Ok && r->Ok_0.dv() == ValM::Dict(
                    DictM { entries: es, meta: None },
                ),
                Err(e) => r is Err && r->Err_0 == e,
            },
            Err(e) => r is Err && r->Err_0 == e,
        },
{
    let ghost m = v.dv();
    let vs = match make_iterator(v) {
        Err(e) => {
            return Err(e);
        },
        Ok(it) => match drain_to_vec(it, Ctx::ToMap) {
            Err(e) => {
                return Err(e);
            },
            Ok(vs) => vs,
        },
    };
    let mut d = Dict::empty();
    let ghost gvs = seq_dv(vs@);
    proof {
        lemma_seq_dv_len(vs@);
    }
    let mut i: usize = 0;
    proof {
        assert(gvs.skip(0) =~= gvs);
    }
    while i < vs.len()
        invariant
            i <= vs@.len(),
            gvs == seq_dv(vs@),
            d.dv().meta is None,
            to_map_fold(Seq::empty(), gvs) == to_map_fold(d.dv().entries, gvs.skip(i as int)),
        decreases vs@.len() - i,
    {
        proof {
            lemma_seq_dv_index(vs@, i as int);
            assert(gvs.skip(i as int)[0] == gvs[i as int]);
            assert(gvs.skip(i as int).drop_first() =~= gvs.skip(i + 1));
        }
        let x = vs[i].dup();
        match insert_drained(&mut d, x) {
            Ok(_) => {},
            Err(e) => {
                return Err(e);
            },
        }
        i = i + 1;
    }
    proof {
        assert(gvs.skip(gvs.len() as int) =~= Seq::<ValM>::empty());
    }
    Ok(Value::Dict(d))
}

impl Dict {
    /// Extends this map with the entries of another map or of any iterable
    /// of pairs or two-element tuples, one insertion at a time; the first
    /// fault aborts, leaving the insertions made so far in place.
    #[verifier::loop_isolation(false)]
    pub fn extend(&mut self, v: Value) -> (r: Result<(), Error>)
        ensures
            final(self).dv().meta == old(self).dv().meta,
            !iterable(v.dv()) ==> r is Err && r->Err_0 == not_iterable_err(v.dv())
                && final(self).dv() == old(self).dv(),
            iterable(v.dv()) && iter_model(v.dv()).finite() && iter_model(v.dv()).rem()
                < usize::MAX ==> match drain_vals(iter_model(v.dv()).stream()) {
                Ok(vs) => ({
                    let run = extend_run(old(self).dv().entries, vs);
                    &&& final(self).dv().entries == run.0
                    &&& match run.1 {
                        Some(e) => r is Err && r->Err_0 == e,
                        None => r is Ok,
                    }
                }),
                Err(e) => r is Err && r->Err_0 == e && final(self).dv() == old(self).dv(),
            },
    {
        let ghost m = v.dv();
        let vs = match make_iterator(v) {
            Err(e) => {
                return Err(e);
            },
            Ok(it) => match drain_to_vec(it, Ctx::MapExtend) {
                Err(e) => {
                    return Err(e);
                },
                Ok(vs) => vs,
            },
        };
        let ghost gvs = seq_dv(vs@);
        let ghost entries0 = self.dv().entries;
        proof {
            lemma_seq_dv_len(vs@);
        }
        let mut i: usize = 0;
        proof {
            assert(gvs.skip(0) =~= gvs);
        }
        while i < vs.len()
            invariant
                i <= vs@.len(),
                gvs == seq_dv(vs@),
                self.dv().meta == old(self).dv().meta,
                entries0 == old(self).dv().entries,
                extend_run(entries0, gvs) == extend_run(self.dv().entries, gvs.skip(i as int)),
            decreases vs@.len() - i,
        {
            proof {
                lemma_seq_dv_index(vs@, i as int);
                assert(gvs.skip(i as int)[0] == gvs[i as int]);
                assert(gvs.skip(i as int).drop_first() =~= gvs.skip(i + 1));
            }
            let x = vs[i].dup();
            match insert_drained(self, x) {
                Ok(_) => {},
                Err(e) => {
                    return Err(e);
                },
            }
            i = i + 1;
        }
        proof {
            assert(gvs.skip(gvs.len() as int) =~= Seq::<ValM>::empty());
        }
        Ok(())
    }
}

/// The picks a stepping run keeps from a drained prefix: the value at every
/// multiple of the step size, with a trailing fault - which the stepping
/// would pull through to - following them.
pub open spec fn step_outs(vs: Seq<ValM>, err: Option<Error>, n: int) -> Seq<OutM>
    recommends
        n >= 1,
{
    Seq::new(
        ((vs.len() + n - 1) / n) as nat,
        |k: int| OutM::V(vs[k * n]),
    ) + (match err {
        Some(e) => seq![OutM::E(e)],
        None => Seq::<OutM>::empty(),
    })
}

/// Materializes the upstream and keeps every `n`-th value, starting with
/// the first; a fault among the skipped outputs still comes out. A step
/// size under one is rejected at construction with the function's name.
#[verifier::loop_isolation(false)]
#[verifier::rlimit(60)]
pub fn step(v: Value, arg: Value) -> (r: Result<Value, Error>)
    ensures
        !iterable(v.dv()) ==> r is Err && r->Err_0 == not_iterable_err(v.dv()),
        iterable(v.dv()) && (match arg.dv() {
            ValM::Num(n) => n < 1,
            _ => true,
        }) ==> r is Err && r->Err_0 == (match arg.dv() {
            ValM::Num(_) => Error::InvalidArgument { context: Ctx::Step },
            _ => Error::ArgumentShapeMismatch { context: Ctx::Step },
        }),
        iterable(v.dv()) && iter_model(v.dv()).finite() && iter_model(v.dv()).rem() < usize::MAX
            && (match arg.dv() {
            ValM::Num(n) => n >= 1,
            _ => false,
        }) ==> r is Ok && ({
            let parts = vals_to_err(iter_model(v.dv()).stream());
            r->Ok_0.dv() == ValM::Iter(
                Box::new(
                    IterM::OfOuts {
                        outs: step_outs(parts.0, parts.1, clamp_usize(arg.dv()->Num_0 as int)),
                        index: 0,
                    },
                ),
            )
        }),
{
    let ghost m = v.dv();
    let it = match make_iterator(v) {
        Err(e) => {
            return Err(e);
        },
        Ok(it) => it,
    };
    let n = match group_size(arg, Ctx::Step) {
        Err(e) => {
            return Err(e);
        },
        Ok(n) => n,
    };
    let (vs, err) = match drain_outs(it, Ctx::Step) {
        Err(e) => {
            return Err(e);
        },
        Ok(p) => p,
    };
    let ghost gerr: Option<Error> = if err is Some {
        Some(err->Some_0)
    } else {
        None
    };
    proof {
        lemma_seq_dv_len(vs@);
    }
    let count: usize = if vs.len() == 0 {
        0
    } else {
        (vs.len() - 1) / n + 1
    };
    proof {
        assert(count as int == (seq_dv(vs@).len() + n - 1) / n as int) by (nonlinear_arith)
            requires
                n >= 1,
                seq_dv(vs@).len() == vs@.len(),
                count as int == (if vs@.len() == 0 {
                    0int
                } else {
                    (vs@.len() - 1) / n as int + 1
                }),
        ;
    }
    let mut outs: Vec<Out> = Vec::new();
    proof {
        assert(out_seq_dv(Seq::<Out>::empty()) =~= Seq::<OutM>::empty());
    }
    let mut k: usize = 0;
    while k < count
        invariant
            k <= count,
            n >= 1,
            count as int == (seq_dv(vs@).len() + n - 1) / n as int,
            out_seq_dv(outs@) == Seq::new(k as nat, |t: int| OutM::V(seq_dv(vs@)[t * n])),
        decreases count - k,
    {
        proof {
            assert(k * n < vs@.len()) by (nonlinear_arith)
                requires
                    n >= 1,
                    0 <= k < count,
                    count as int == (vs@.len() + n - 1) / n as int,
            ;
            lemma_seq_dv_index(vs@, (k * n) as int);
        }
        let ghost pre = outs@;
        let x = vs[k * n].dup();
        let ghost gx = x;
        outs.push(Out::Value(x));
        proof {
            lemma_out_seq_dv_push(pre, Out::Value(gx));
            assert(out_seq_dv(outs@) =~= Seq::new(
                (k + 1) as nat,
                |t: int| OutM::V(seq_dv(vs@)[t * n]),
            ));
        }
        k = k + 1;
    }
    match err {
        Some(e) => {
            let ghost pre = outs@;
            let ghost ge = e;
            outs.push(Out::Error(e));
            proof {
                lemma_out_seq_dv_push(pre, Out::Error(ge));
            }
        },
        None => {},
    }
    proof {
        if iterable(m) && iter_model(m).finite() && iter_model(m).rem() < usize::MAX {
            assert(out_seq_dv(outs@) =~= step_outs(seq_dv(vs@), gerr, n as int));
        }
    }
    Ok(Value::Iterator(Box::new(Iter::OfOuts { outs, index: 0 })))
}

/// What one drained value contributes to a flattening: the members of a
/// container, one level deep, and anything else unchanged. Live handles
/// and object instances are not expanded here.
pub open spec fn flat_elems(v: ValM) -> Seq<OutM> {
    match v {
        ValM::List(xs) => Seq::new(xs.len(), |i: int| OutM::V(xs[i])),
        ValM::Tuple(xs) => Seq::new(xs.len(), |i: int| OutM::V(xs[i])),
        ValM::Dict(d) => Seq::new(
            d.entries.len(),
            |i: int| OutM::P(d.entries[i].0, d.entries[i].1),
        ),
        ValM::Str(cs) => crate::string_iters::graphemes_rest(cs, 0),
        _ => seq![OutM::V(v)],
    }
}

/// Whether the flattening expands a value.
pub open spec fn expandable(v: ValM) -> bool {
    match v {
        ValM::List(_) => true,
        ValM::Tuple(_) => true,
        ValM::Dict(_) => true,
        ValM::Str(_) => true,
        _ => false,
    }
}

/// The flattened run of a drained prefix, with a trailing fault kept.
pub open spec fn flat_outs(vs: Seq<ValM>, err: Option<Error>) -> Seq<OutM>
    decreases vs.len(),
{
    if vs.len() == 0 {
        match err {
            Some(e) => seq![OutM::E(e)],
            None => Seq::empty(),
        }
    } else {
        flat_elems(vs[0]) + flat_outs(vs.drop_first(), err)
    }
}

/// A container's iteration is exactly its flattening contribution.
proof fn lemma_container_stream(v: ValM)
    requires
        expandable(v),
    ensures
        iterable(v),
        iter_model(v).finite(),
        iter_model(v).stream() == flat_elems(v),
{
    let m = iter_model(v);
    match v {
        ValM::Str(cs) => {
            assert(m.rem() == crate::string_iters::graphemes_rest(cs, 0).len());
            assert forall|k: int| 0 <= k < m.rem() implies m.stream()[k] == flat_elems(v)[k] by {
                assert(m.stream()[k] == m.mat(k));
            }
            assert(m.stream() =~= flat_elems(v));
        },
        _ => {
            assert(m.rem() == flat_elems(v).len());
            assert forall|k: int| 0 <= k < m.rem() implies m.stream()[k] == flat_elems(v)[k] by {
                assert(m.stream()[k] == m.mat(k));
            }
            assert(m.stream() =~= flat_elems(v));
        },
    }
}

/// Appends one drained value's contribution to a flattened run; container
/// iteration cannot fault, so the whole contribution lands.
#[verifier::loop_isolation(false)]
fn push_flat(outs: &mut Vec<Out>, v: Value)
    requires
        !(v.dv() is Iter),
        !(v.dv() is Obj),
    ensures
        out_seq_dv(final(outs)@) == out_seq_dv(old(outs)@) + flat_elems(v.dv()),
{
    let ghost gv = v.dv();
    let expand = match &v {
        Value::List(_) => true,
        Value::Tuple(_) => true,
        Value::Dict(_) => true,
        Value::Str(_) => true,
        _ => false,
    };
    if !expand {
        let ghost pre = outs@;
        let ghost gvv = v;
        outs.push(Out::Value(v));
        proof {
            lemma_out_seq_dv_push(pre, Out::Value(gvv));
            assert(out_seq_dv(outs@) =~= out_seq_dv(pre) + flat_elems(gv));
        }
        return ;
    }
    proof {
        lemma_container_stream(gv);
        match gv {
            ValM::Str(cs) => {
                crate::string_iters::lemma_graphemes_rest_count(cs, 0);
            },
            _ => {},
        }
    }
    let bound = match &v {
        Value::List(xs) => xs.len(),
        Value::Tuple(xs) => xs.len(),
        Value::Dict(d) => d.entries.len(),
        Value::Str(st) => st.len(),
        _ => 0,
    };
    proof {
        match &v {
            Value::List(xs) => {
                lemma_seq_dv_len(xs@);
            },
            Value::Tuple(xs) => {
                lemma_seq_dv_len(xs@);
            },
            Value::Dict(d) => {
                crate::value::lemma_entry_seq_dv_len(d.entries@);
            },
            _ => {},
        }
        assert(iter_model(gv).rem() <= bound);
    }
    let mut inner = match make_iterator(v) {
        Err(e) => {
            proof {
                assert(false);
            }
            return ;
        },
        Ok(it) => it,
    };
    let ghost im = iter_model(gv);
    let ghost base = out_seq_dv(outs@);
    let mut budget: usize = usize::MAX;
    loop
        invariant
            inner.dv().modeled(),
            inner.dv().mlen() is Some,
            inner.dv().rem() <= budget,
            im.finite(),
            im.stream() == flat_elems(gv),
            out_seq_dv(outs@).len() >= base.len(),
            out_seq_dv(outs@) + inner.dv().stream() == base + flat_elems(gv),
        decreases budget,
    {
        if budget == 0 {
            proof {
                assert(inner.dv().rem() == 0);
                assert(inner.dv().stream() =~= Seq::<OutM>::empty());
                assert(out_seq_dv(outs@) =~= base + flat_elems(gv));
            }
            return ;
        }
        budget = budget - 1;
        let ghost pre = inner.dv();
        let step = inner.next();
        match step {
            None => {
                proof {
                    assert(pre.stream() =~= Seq::<OutM>::empty());
                    assert(out_seq_dv(outs@) =~= base + flat_elems(gv));
                }
                return ;
            },
            Some(o) => {
                proof {
                    assert(pre.stream()[0] == pre.mat(0));
                    if o.dv() is E {
                        lemma_flat_elems_no_errors(gv);
                        let idx = out_seq_dv(outs@).len() as int;
                        assert((out_seq_dv(outs@) + pre.stream())[idx] == pre.stream()[0]);
                        assert((base + flat_elems(gv))[idx] == flat_elems(gv)[idx - base.len()]);
                        assert(false);
                    }
                    assert(pre.stream().drop_first() =~= inner.dv().stream());
                }
                let ghost pouts = outs@;
                let ghost go = o;
                outs.push(o);
                proof {
                    lemma_out_seq_dv_push(pouts, go);
                    assert(out_seq_dv(outs@) + inner.dv().stream() =~= base + flat_elems(gv));
                }
            },
        }
    }
}

/// A container's flattening contribution holds no faults.
proof fn lemma_flat_elems_no_errors(v: ValM)
    requires
        expandable(v),
    ensures
        forall|k: int| 0 <= k < flat_elems(v).len() ==> !((#[trigger] flat_elems(v)[k]) is E),
{
    match v {
        ValM::Str(cs) => {
            lemma_graphemes_no_errors(cs, 0);
        },
        _ => {},
    }
}

/// Grapheme iteration yields only string values.
proof fn lemma_graphemes_no_errors(cs: Seq<char>, pos: int)
    ensures
        forall|k: int|
            0 <= k < crate::string_iters::graphemes_rest(cs, pos).len() ==> !((
            #[trigger] crate::string_iters::graphemes_rest(cs, pos)[k]) is E),
    decreases cs.len() - pos,
{
    if 0 <= pos < cs.len() {
        let n0 = crate::string_iters::grapheme_len_of(
            cs.subrange(pos, cs.len() as int),
        ) as int;
        let n = if n0 < 1 {
            1
        } else if n0 > cs.len() - pos {
            cs.len() - pos
        } else {
            n0
        };
        lemma_graphemes_no_errors(cs, pos + n);
        assert forall|k: int|
            0 <= k < crate::string_iters::graphemes_rest(cs, pos).len() implies !((
        #[trigger] crate::string_iters::graphemes_rest(cs, pos)[k]) is E) by {
            if k > 0 {
                assert(crate::string_iters::graphemes_rest(cs, pos)[k]
                    == crate::string_iters::graphemes_rest(cs, pos + n)[k - 1]);
            }
        }
    }
}

/// Materializes the upstream and splices each container value's members
/// into the run, one level deep; other values pass through unchanged, and
/// a fault cuts the run short. Live handles and object instances met here
/// pass through without expansion.
#[verifier::loop_isolation(false)]
pub fn flatten(v: Value) -> (r: Result<Value, Error>)
    ensures
        !iterable(v.dv()) ==> r is Err && r->Err_0 == not_iterable_err(v.dv()),
        iterable(v.dv()) && iter_model(v.dv()).finite() && iter_model(v.dv()).rem() < usize::MAX
            ==> {
            let parts = vals_to_err(iter_model(v.dv()).stream());
            if forall|j: int|
                0 <= j < parts.0.len() ==> !((#[trigger] parts.0[j]) is Iter) && !(parts.0[j]
                    is Obj) {
                r is Ok && r->Ok_0.dv() == ValM::Iter(
                    Box::new(IterM::OfOuts { outs: flat_outs(parts.0, parts.1), index: 0 }),
                )
            } else {
                true
            }
        },
{
    let ghost m = v.dv();
    let it = match make_iterator(v) {
        Err(e) => {
            return Err(e);
        },
        Ok(it) => it,
    };
    let (vs, err) = match drain_outs(it, Ctx::Flatten) {
        Err(e) => {
            return Err(e);
        },
        Ok(p) => p,
    };
    let ghost gvs = seq_dv(vs@);
    let ghost gerr: Option<Error> = if err is Some {
        Some(err->Some_0)
    } else {
        None
    };
    proof {
        lemma_seq_dv_len(vs@);
    }
    let mut outs: Vec<Out> = Vec::new();
    proof {
        assert(out_seq_dv(Seq::<Out>::empty()) =~= Seq::<OutM>::empty());
    }
    let mut i: usize = 0;
    proof {
        assert(gvs.skip(0) =~= gvs);
    }
    while i < vs.len()
        invariant
            i <= vs@.len(),
            gvs == seq_dv(vs@),
            (forall|j: int|
                0 <= j < gvs.len() ==> !((#[trigger] gvs[j]) is Iter) && !(gvs[j] is Obj))
                ==> out_seq_dv(outs@) + flat_outs(gvs.skip(i as int), gerr) == flat_outs(
                gvs,
                gerr,
            ),
        decreases vs@.len() - i,
    {
        proof {
            lemma_seq_dv_index(vs@, i as int);
            assert(gvs.skip(i as int)[0] == gvs[i as int]);
            assert(gvs.skip(i as int).drop_first() =~= gvs.skip(i + 1));
        }
        let x = vs[i].dup();
        if match &x {
            Value::Iterator(_) => true,
            Value::Object(_) => true,
            _ => false,
        } {
            let ghost pre = outs@;
            let ghost gx = x;
            outs.push(Out::Value(x));
            proof {
                lemma_out_seq_dv_push(pre, Out::Value(gx));
            }
        } else {
            let ghost pouts = out_seq_dv(outs@);
            push_flat(&mut outs, x);
            proof {
                if forall|j: int|
                    0 <= j < gvs.len() ==> !((#[trigger] gvs[j]) is Iter) && !(gvs[j] is Obj) {
                    assert((pouts + flat_elems(gvs[i as int])) + flat_outs(
                        gvs.skip(i + 1),
                        gerr,
                    ) =~= pouts + (flat_elems(gvs[i as int]) + flat_outs(gvs.skip(i + 1), gerr)));
                }
            }
        }
        i = i + 1;
    }
    match err {
        Some(e) => {
            let ghost pre = outs@;
            let ghost ge = e;
            outs.push(Out::Error(e));
            proof {
                lemma_out_seq_dv_push(pre, Out::Error(ge));
                assert(gvs.skip(gvs.len() as int) =~= Seq::<ValM>::empty());
                if forall|j: int|
                    0 <= j < gvs.len() ==> !((#[trigger] gvs[j]) is Iter) && !(gvs[j] is Obj) {
                    assert(out_seq_dv(pre) + seq![OutM::E(ge)] =~= out_seq_dv(outs@));
                    assert(out_seq_dv(outs@) =~= flat_outs(gvs, gerr));
                }
            }
        },
        None => {
            proof {
                assert(gvs.skip(gvs.len() as int) =~= Seq::<ValM>::empty());
                if forall|j: int|
                    0 <= j < gvs.len() ==> !((#[trigger] gvs[j]) is Iter) && !(gvs[j] is Obj) {
                    assert(out_seq_dv(outs@) + Seq::<OutM>::empty() =~= out_seq_dv(outs@));
                    assert(out_seq_dv(outs@) =~= flat_outs(gvs, gerr));
                }
            }
        },
    }
    Ok(Value::Iterator(Box::new(Iter::OfOuts { outs, index: 0 })))
}

/// The interleaved run of a drained prefix: the separator stands between
/// values, never before the first or after the last, and a trailing fault
/// follows a value directly. A faulting separator callable cuts the run at
/// the first separator slot.
pub open spec fn inter_outs(vs: Seq<ValM>, err: Option<Error>, sep: Result<ValM, Error>) -> Seq<
    OutM,
> {
    match sep {
        Ok(s) => Seq::new(
            if vs.len() == 0 {
                0nat
            } else {
                (2 * vs.len() - 1) as nat
            },
            |k: int|
                if k % 2 == 0 {
                    OutM::V(vs[k / 2])
                } else {
                    OutM::V(s)
                },
        ) + (match err {
            Some(e) => seq![OutM::E(e)],
            None => Seq::<OutM>::empty(),
        }),
        Err(e) => if vs.len() == 0 {
            match err {
                Some(e2) => seq![OutM::E(e2)],
                None => Seq::<OutM>::empty(),
            }
        } else if vs.len() == 1 {
            seq![OutM::V(vs[0])] + (match err {
                Some(e2) => seq![OutM::E(e2)],
                None => Seq::<OutM>::empty(),
            })
        } else {
            seq![OutM::V(vs[0]), OutM::E(e)]
        },
    }
}

/// What the separator of an interleaving is: the given value, or what a
/// zero-argument separator callable answers.
pub open spec fn sep_result(separator: ValM) -> Result<ValM, Error> {
    match separator {
        ValM::Call(f) => call_spec(f, Seq::empty()),
        s => Ok(s),
    }
}

/// Materializes the upstream and emits the separator between its values:
/// never before the first, never after the last. A Callable separator is
/// asked for each separator in turn, and its first fault cuts the run.
#[verifier::loop_isolation(false)]
pub fn intersperse(v: Value, separator: Value) -> (r: Result<Value, Error>)
    ensures
        !iterable(v.dv()) ==> r is Err && r->Err_0 == not_iterable_err(v.dv()),
        iterable(v.dv()) && iter_model(v.dv()).finite() && iter_model(v.dv()).rem() < usize::MAX
            ==> r is Ok && ({
            let parts = vals_to_err(iter_model(v.dv()).stream());
            r->Ok_0.dv() == ValM::Iter(
                Box::new(
                    IterM::OfOuts {
                        outs: inter_outs(parts.0, parts.1, sep_result(separator.dv())),
                        index: 0,
                    },
                ),
            )
        }),
{
    let ghost m = v.dv();
    let ghost gsep = separator.dv();
    let it = match make_iterator(v) {
        Err(e) => {
            return Err(e);
        },
        Ok(it) => it,
    };
    let (vs, err) = match drain_outs(it, Ctx::Intersperse) {
        Err(e) => {
            return Err(e);
        },
        Ok(p) => p,
    };
    let ghost gvs = seq_dv(vs@);
    let ghost gerr: Option<Error> = if err is Some {
        Some(err->Some_0)
    } else {
        None
    };
    proof {
        lemma_seq_dv_len(vs@);
    }
    let mut outs: Vec<Out> = Vec::new();
    proof {
        assert(out_seq_dv(Seq::<Out>::empty()) =~= Seq::<OutM>::empty());
    }
    let mut i: usize = 0;
    while i < vs.len()
        invariant
            i <= vs@.len(),
            gvs == seq_dv(vs@),
            separator.dv() == gsep,
            out_seq_dv(outs@) == Seq::new(
                if i == 0 {
                    0nat
                } else {
                    (2 * i - 1) as nat
                },
                |k: int|
                    if k % 2 == 0 {
                        OutM::V(gvs[k / 2])
                    } else {
                        OutM::V(sep_result(gsep)->Ok_0)
                    },
            ),
            i > 1 ==> sep_result(gsep) is Ok,
        decreases vs@.len() - i,
    {
        if i > 0 {
            let sep_out = match &separator {
                Value::Callable(f) => {
                    let args: Vec<Value> = Vec::new();
                    proof {
                        assert(seq_dv(args@) =~= Seq::<ValM>::empty());
                    }
                    match run_callable(f, args) {
                        Ok(s) => s,
                        Err(e) => {
                            let ghost pre = outs@;
                            let ghost ge = e;
                            outs.push(Out::Error(e));
                            proof {
                                lemma_out_seq_dv_push(pre, Out::Error(ge));
                                assert(i == 1);
                                assert(out_seq_dv(outs@) =~= inter_outs(
                                    gvs,
                                    gerr,
                                    sep_result(gsep),
                                ));
                            }
                            return Ok(Value::Iterator(
                                Box::new(Iter::OfOuts { outs, index: 0 }),
                            ));
                        },
                    }
                },
                s => s.dup(),
            };
            let ghost pre = outs@;
            let ghost gs = sep_out;
            outs.push(Out::Value(sep_out));
            proof {
                lemma_out_seq_dv_push(pre, Out::Value(gs));
                assert(out_seq_dv(outs@) =~= Seq::new(
                    (2 * i) as nat,
                    |k: int|
                        if k % 2 == 0 {
                            OutM::V(gvs[k / 2])
                        } else {
                            OutM::V(sep_result(gsep)->Ok_0)
                        },
                ));
            }
        }
        proof {
            lemma_seq_dv_index(vs@, i as int);
        }
        let ghost pre = outs@;
        let x = vs[i].dup();
        let ghost gx = x;
        outs.push(Out::Value(x));
        proof {
            lemma_out_seq_dv_push(pre, Out::Value(gx));
            assert(out_seq_dv(outs@) =~= Seq::new(
                (2 * (i + 1) - 1) as nat,
                |k: int|
                    if k % 2 == 0 {
                        OutM::V(gvs[k / 2])
                    } else {
                        OutM::V(sep_result(gsep)->Ok_0)
                    },
            ));
        }
        i = i + 1;
    }
    match err {
        Some(e) => {
            let ghost pre = outs@;
            let ghost ge = e;
            outs.push(Out::Error(e));
            proof {
                lemma_out_seq_dv_push(pre, Out::Error(ge));
            }
        },
        None => {},
    }
    proof {
        if iterable(m) && iter_model(m).finite() && iter_model(m).rem() < usize::MAX {
            assert(out_seq_dv(outs@) =~= inter_outs(gvs, gerr, sep_result(gsep)));
        }
    }
    Ok(Value::Iterator(Box::new(Iter::OfOuts { outs, index: 0 })))
}

/// The decimal digits of a non-negative number, most significant first.
pub open spec fn dec_of(n: int) -> Seq<char>
    recommends
        n >= 0,
    decreases n,
{
    if n < 0 {
        Seq::empty()
    } else if n < 10 {
        seq![(48 + n) as u8 as char]
    } else {
        dec_of(n / 10) + seq![(48 + n % 10) as u8 as char]
    }
}

/// The rendering of a value: the scalar kinds and strings render directly,
/// and a numeric object instance renders its own number through its
/// display capability; the container kinds are reported as unsupported by
/// this consumer, and an `Opaque` instance implements no display.
pub open spec fn display_spec(m: ValM) -> Result<Seq<char>, Error> {
    match m {
        ValM::Null => Ok(seq!['n', 'u', 'l', 'l']),
        ValM::Bool(true) => Ok(seq!['t', 'r', 'u', 'e']),
        ValM::Bool(false) => Ok(seq!['f', 'a', 'l', 's', 'e']),
        ValM::Num(n) => Ok(
            if n < 0 {
                seq!['-'] + dec_of(-(n as int))
            } else {
                dec_of(n as int)
            },
        ),
        ValM::Obj(ObjInstance::Num(n)) => Ok(
            if n < 0 {
                seq!['-'] + dec_of(-(n as int))
            } else {
                dec_of(n as int)
            },
        ),
        ValM::Str(cs) => Ok(cs),
        _ => Err(Error::UnsupportedOperation { op: Op::Display, kind: kind_of(m) }),
    }
}

/// Renders a non-negative number into decimal digits.
fn push_dec(chars: &mut Vec<char>, n: u64)
    ensures
        final(chars)@ == old(chars)@ + dec_of(n as int),
{
    let ghost base = chars@;
    let mut digits: Vec<char> = Vec::new();
    let mut left = n;
    loop
        invariant_except_break
            (digits@.len() == 0 && left == n) || (left > 0 && dec_of(n as int) == dec_of(
                left as int,
            ) + digits@.reverse()),
        ensures
            dec_of(n as int) == digits@.reverse(),
        decreases left, (if digits@.len() == 0 {
            1int
        } else {
            0int
        }),
    {
        let d = (left % 10) as u8;
        let ghost pre = digits@;
        let ghost preleft = left as int;
        digits.push((48 + d) as char);
        proof {
            assert(digits@.reverse() =~= seq![(48 + preleft % 10) as u8 as char]
                + pre.reverse());
        }
        left = left / 10;
        proof {
            if preleft < 10 {
                assert(dec_of(preleft) =~= seq![(48 + preleft) as u8 as char]);
                if pre.len() == 0 {
                    assert(dec_of(n as int) =~= digits@.reverse());
                } else {
                    assert(dec_of(n as int) =~= dec_of(preleft) + pre.reverse());
                    assert(dec_of(preleft) + pre.reverse() =~= digits@.reverse());
                }
            } else {
                assert(dec_of(preleft) == dec_of(preleft / 10) + seq![
                    (48 + preleft % 10) as u8 as char,
                ]);
                if pre.len() == 0 {
                    assert(dec_of(n as int) =~= dec_of(left as int) + digits@.reverse());
                } else {
                    assert(dec_of(n as int) =~= dec_of(preleft) + pre.reverse());
                    assert(dec_of(preleft) + pre.reverse() =~= dec_of(left as int)
                        + digits@.reverse());
                }
            }
        }
        if left == 0 {
            proof {
                assert(dec_of(n as int) == digits@.reverse());
            }
            break ;
        }
    }
    let total = digits.len();
    let mut i: usize = 0;
    while i < total
        invariant
            i <= total,
            total == digits@.len(),
            chars@ == base + digits@.reverse().subrange(0, i as int),
        decreases total - i,
    {
        let c = digits[total - 1 - i];
        chars.push(c);
        proof {
            assert(digits@.reverse()[i as int] == digits@[total - 1 - i]);
            assert(chars@ =~= base + digits@.reverse().subrange(0, i + 1));
        }
        i = i + 1;
    }
    proof {
        assert(digits@.reverse().subrange(0, digits@.len() as int) =~= digits@.reverse());
    }
}

/// Renders a signed number into decimal digits.
fn push_signed_dec(chars: &mut Vec<char>, n: i64)
    ensures
        final(chars)@ == old(chars)@ + (if n < 0 {
            seq!['-'] + dec_of(-(n as int))
        } else {
            dec_of(n as int)
        }),
{
    let ghost base = chars@;
    if n < 0 {
        chars.push('-');
        let ghost mid = chars@;
        let mag: u64 = if n == i64::MIN {
            9223372036854775808u64
        } else {
            (-n) as u64
        };
        push_dec(chars, mag);
        proof {
            assert(mid =~= base + seq!['-']);
            assert(chars@ =~= base + (seq!['-'] + dec_of(-(n as int))));
        }
    } else {
        push_dec(chars, n as u64);
    }
}

/// Renders one value onto a growable text buffer.
fn push_display(chars: &mut Vec<char>, v: &Value) -> (r: Result<(), Error>)
    ensures
        match display_spec(v.dv()) {
            Ok(cs) => r is Ok && final(chars)@ == old(chars)@ + cs,
            Err(e) => r is Err && r->Err_0 == e && final(chars)@ == old(chars)@,
        },
{
    let ghost base = chars@;
    match v {
        Value::Null => {
            chars.push('n');
            chars.push('u');
            chars.push('l');
            chars.push('l');
            proof {
                assert(chars@ =~= base + seq!['n', 'u', 'l', 'l']);
            }
            Ok(())
        },
        Value::Bool(true) => {
            chars.push('t');
            chars.push('r');
            chars.push('u');
            chars.push('e');
            proof {
                assert(chars@ =~= base + seq!['t', 'r', 'u', 'e']);
            }
            Ok(())
        },
        Value::Bool(false) => {
            chars.push('f');
            chars.push('a');
            chars.push('l');
            chars.push('s');
            chars.push('e');
            proof {
                assert(chars@ =~= base + seq!['f', 'a', 'l', 's', 'e']);
            }
            Ok(())
        },
        Value::Number(n) => {
            push_signed_dec(chars, *n);
            Ok(())
        },
        Value::Object(ObjInstance::Num(n)) => {
            push_signed_dec(chars, *n);
            Ok(())
        },
        Value::Str(s) => {
            let mut i: usize = 0;
            let total = s.chars.len();
            while i < total
                invariant
                    i <= total,
                    total == s@.len(),
                    chars@ == base + s@.subrange(0, i as int),
                decreases total - i,
            {
                chars.push(s.chars[i]);
                proof {
                    assert(chars@ =~= base + s@.subrange(0, i + 1));
                }
                i = i + 1;
            }
            proof {
                assert(s@.subrange(0, s@.len() as int) =~= s@);
            }
            Ok(())
        },
        other => {
            proof {
                crate::value::lemma_kind_dv(*other);
            }
            Err(Error::UnsupportedOperation { op: Op::Display, kind: other.kind() })
        },
    }
}

/// What rendering a drained run produces: the renderings joined, or the
/// first fault.
pub open spec fn to_string_fold(acc: Seq<char>, vs: Seq<ValM>) -> Result<Seq<char>, Error>
    decreases vs.len(),
{
    if vs.len() == 0 {
        Ok(acc)
    } else {
        match display_spec(vs[0]) {
            Ok(cs) => to_string_fold(acc + cs, vs.drop_first()),
            Err(e) => Err(e),
        }
    }
}

/// Drains an iterable and renders each value onto one string, pre-sized
/// from the handle's lower size bound; the first fault - from upstream or
/// from rendering a kind without a direct rendering - aborts with that
/// fault.
#[verifier::loop_isolation(false)]
pub fn to_string(v: Value) -> (r: Result<Value, Error>)
    ensures
        !iterable(v.dv()) ==> r is Err && r->Err_0 == not_iterable_err(v.dv()),
        iterable(v.dv()) && iter_model(v.dv()).finite() && iter_model(v.dv()).rem() < usize::MAX
            ==> match drain_vals(iter_model(v.dv()).stream()) {
            Ok(vs) => match to_string_fold(Seq::empty(), vs) {
                Ok(cs) => r is Ok && r->Ok_0.dv() == ValM::Str(cs),
                Err(e) => r is Err && r->Err_0 == e,
            },
            Err(e) => r is Err && r->Err_0 == e,
        },
{
    let ghost m = v.dv();
    let vs = match make_iterator(v) {
        Err(e) => {
            return Err(e);
        },
        Ok(it) => match drain_to_vec(it, Ctx::ToString) {
            Err(e) => {
                return Err(e);
            },
            Ok(vs) => vs,
        },
    };
    let ghost gvs = seq_dv(vs@);
    proof {
        lemma_seq_dv_len(vs@);
        assert(gvs.skip(0) =~= gvs);
    }
    let mut chars: Vec<char> = Vec::new();
    let mut i: usize = 0;
    while i < vs.len()
        invariant
            i <= vs@.len(),
            gvs == seq_dv(vs@),
            to_string_fold(Seq::empty(), gvs) == to_string_fold(chars@, gvs.skip(i as int)),
        decreases vs@.len() - i,
    {
        proof {
            lemma_seq_dv_index(vs@, i as int);
            assert(gvs.skip(i as int)[0] == gvs[i as int]);
            assert(gvs.skip(i as int).drop_first() =~= gvs.skip(i + 1));
        }
        match push_display(&mut chars, &vs[i]) {
            Ok(_) => {},
            Err(e) => {
                return Err(e);
            },
        }
        i = i + 1;
    }
    proof {
        assert(gvs.skip(gvs.len() as int) =~= Seq::<ValM>::empty());
    }
    Ok(Value::Str(crate::value::KString::from_chars(chars)))
}

} // verus!
