use vstd::prelude::*;

use crate::error::{Ctx, Error, Expectation, Kind, Op};
use crate::dict::Dict;
use crate::object::ObjInstance;
use crate::value::{
    dup_vec, entry_seq_dv, key_match, keyable, kind_of, lemma_entry_seq_dv_index,
    lemma_entry_seq_dv_len, lemma_seq_dv_index, lemma_seq_dv_len, seq_dv, KString, ValM, Value,
};

verus! {

/// Semantic equality of two values: numbers by value, strings and ordered
/// containers element-wise, maps unordered, objects by their own state;
/// values of different kinds, and live handles, are never equal.
pub open spec fn sem_eq(a: ValM, b: ValM) -> bool
    decreases a, 0int,
{
    match (a, b) {
        (ValM::Null, ValM::Null) => true,
        (ValM::Bool(x), ValM::Bool(y)) => x == y,
        (ValM::Num(x), ValM::Num(y)) => x == y,
        (ValM::Str(x), ValM::Str(y)) => x == y,
        (ValM::List(x), ValM::List(y)) => seq_sem_eq(x, y),
        (ValM::Tuple(x), ValM::Tuple(y)) => seq_sem_eq(x, y),
        (ValM::Dict(x), ValM::Dict(y)) => x.entries.len() == y.entries.len() && entries_sub(
            x.entries,
            y.entries,
        ),
        (ValM::Obj(x), ValM::Obj(y)) => x == y,
        _ => false,
    }
}

/// Element-wise semantic equality of two sequences of values.
pub open spec fn seq_sem_eq(a: Seq<ValM>, b: Seq<ValM>) -> bool
    decreases a, 1int,
{
    a.len() == b.len() && (a.len() == 0 || (seq_sem_eq(a.drop_last(), b.drop_last()) && sem_eq(
        a.last(),
        b.last(),
    )))
}

/// The position of the first entry whose key matches, if any.
pub open spec fn find_entry(entries: Seq<(ValM, ValM)>, key: ValM) -> Option<int>
    decreases entries.len(),
{
    if entries.len() == 0 {
        None
    } else if key_match(entries[0].0, key) {
        Some(0)
    } else {
        match find_entry(entries.drop_first(), key) {
            Some(j) => Some(j + 1),
            None => None,
        }
    }
}

/// Every entry of `a` has a matching key in `b` carrying an equal value.
pub open spec fn entries_sub(a: Seq<(ValM, ValM)>, b: Seq<(ValM, ValM)>) -> bool
    decreases a, 2int,
{
    if a.len() == 0 {
        true
    } else {
        (match find_entry(b, a[0].0) {
            Some(j) => sem_eq(a[0].1, b[j].1),
            None => false,
        }) && entries_sub(a.drop_first(), b)
    }
}

/// Lexicographic strict order on character sequences.
pub open spec fn lex_less(a: Seq<char>, b: Seq<char>) -> bool
    decreases a.len(),
{
    if b.len() == 0 {
        false
    } else if a.len() == 0 {
        true
    } else if a[0] == b[0] {
        lex_less(a.drop_first(), b.drop_first())
    } else {
        a[0] < b[0]
    }
}

/// The checked integer result shared by the numeric operators.
pub open spec fn num_result(op: Op, x: int, y: int) -> Result<int, Error> {
    match op {
        Op::Add => Ok(x + y),
        Op::Subtract => Ok(x - y),
        Op::Multiply => Ok(x * y),
        Op::Divide => if y == 0 {
            Err(Error::InvalidArgument { context: Ctx::Arithmetic })
        } else {
            Ok(x / y)
        },
        Op::Remainder => if y == 0 || (x == i64::MIN && y == -1) {
            Err(Error::InvalidArgument { context: Ctx::Arithmetic })
        } else {
            Ok(x % y)
        },
        _ => Err(Error::InvalidArgument { context: Ctx::Arithmetic }),
    }
}

/// A checked integer squeezed into the machine range, or the overflow fault.
pub open spec fn clip_num(r: Result<int, Error>) -> Result<ValM, Error> {
    match r {
        Ok(x) => if i64::MIN <= x <= i64::MAX {
            Ok(ValM::Num(x as i64))
        } else {
            Err(Error::InvalidArgument { context: Ctx::Arithmetic })
        },
        Err(e) => Err(e),
    }
}

/// Whether an operation is one of the value-returning arithmetic group.
pub open spec fn is_arith(op: Op) -> bool {
    op == Op::Add || op == Op::Subtract || op == Op::Multiply || op == Op::Divide || op
        == Op::Remainder
}

/// Whether an operation is one of the ordering group.
pub open spec fn is_ordering(op: Op) -> bool {
    op == Op::Less || op == Op::LessOrEqual || op == Op::Greater || op == Op::GreaterOrEqual
}

/// The boolean an ordering operation reports for an already-decided strict
/// order: each of the four is expressed through "less than".
pub open spec fn order_result(op: Op, lt: bool, gt: bool) -> bool {
    match op {
        Op::Less => lt,
        Op::LessOrEqual => !gt,
        Op::Greater => gt,
        Op::GreaterOrEqual => !lt,
        _ => false,
    }
}

/// What executing a binary operator on two values returns: the dispatch
/// protocol resolved on the models. Objects accept their own type or a
/// Number on the right and decide the rest themselves; an `Opaque` instance
/// implements no capability group.
pub open spec fn bin_spec(op: Op, a: ValM, b: ValM) -> Result<ValM, Error> {
    if op == Op::Equal {
        Ok(ValM::Bool(sem_eq(a, b)))
    } else if op == Op::NotEqual {
        Ok(ValM::Bool(!sem_eq(a, b)))
    } else {
        match (a, b) {
            (ValM::Num(x), ValM::Num(y)) => if is_arith(op) {
                clip_num(num_result(op, x as int, y as int))
            } else if is_ordering(op) {
                Ok(ValM::Bool(order_result(op, x < y, x > y)))
            } else {
                Err(Error::UnsupportedOperation { op, kind: Kind::Number })
            },
            (ValM::Str(x), ValM::Str(y)) => if op == Op::Add {
                Ok(ValM::Str(x + y))
            } else if is_ordering(op) {
                Ok(ValM::Bool(order_result(op, lex_less(x, y), lex_less(y, x))))
            } else {
                Err(Error::UnsupportedOperation { op, kind: Kind::Str })
            },
            (ValM::List(x), ValM::List(y)) => if op == Op::Add {
                Ok(ValM::List(x + y))
            } else {
                Err(Error::UnsupportedOperation { op, kind: Kind::List })
            },
            (ValM::Obj(ObjInstance::Num(x)), ValM::Obj(ObjInstance::Num(y))) => if is_arith(op) {
                match clip_num(num_result(op, x as int, y as int)) {
                    Ok(ValM::Num(z)) => Ok(ValM::Obj(ObjInstance::Num(z))),
                    Ok(other) => Ok(other),
                    Err(e) => Err(e),
                }
            } else if is_ordering(op) {
                Ok(ValM::Bool(order_result(op, x < y, x > y)))
            } else {
                Err(Error::UnsupportedOperation { op, kind: Kind::Object })
            },
            (ValM::Obj(ObjInstance::Num(x)), ValM::Num(y)) => if is_arith(op) {
                match clip_num(num_result(op, x as int, y as int)) {
                    Ok(ValM::Num(z)) => Ok(ValM::Obj(ObjInstance::Num(z))),
                    Ok(other) => Ok(other),
                    Err(e) => Err(e),
                }
            } else if is_ordering(op) {
                Ok(ValM::Bool(order_result(op, (x as int) < y as int, x as int > y as int)))
            } else {
                Err(Error::UnsupportedOperation { op, kind: Kind::Object })
            },
            (ValM::Obj(ObjInstance::Opaque), _) => Err(Error::UnsupportedOperation {
                op,
                kind: Kind::Object,
            }),
            _ => Err(Error::TypeMismatch {
                expected: Expectation::OfKind(kind_of(a)),
                found: kind_of(b),
            }),
        }
    }
}

/// Element-wise equality says exactly that the lengths match and the
/// members are pairwise equal.
pub proof fn lemma_seq_sem_eq(a: Seq<ValM>, b: Seq<ValM>)
    ensures
        seq_sem_eq(a, b) <==> (a.len() == b.len() && forall|i: int|
            0 <= i < a.len() ==> #[trigger] sem_eq(a[i], b[i])),
    decreases a.len(),
{
    if a.len() > 0 && a.len() == b.len() {
        lemma_seq_sem_eq(a.drop_last(), b.drop_last());
        if seq_sem_eq(a, b) {
            assert forall|i: int| 0 <= i < a.len() implies #[trigger] sem_eq(a[i], b[i]) by {
                if i < a.len() - 1 {
                    assert(a.drop_last()[i] == a[i]);
                    assert(b.drop_last()[i] == b[i]);
                }
            }
        }
        if a.len() == b.len() && forall|i: int| 0 <= i < a.len() ==> #[trigger] sem_eq(a[i], b[i]) {
            assert forall|i: int| 0 <= i < a.drop_last().len() implies #[trigger] sem_eq(
                a.drop_last()[i],
                b.drop_last()[i],
            ) by {
                assert(a.drop_last()[i] == a[i]);
                assert(b.drop_last()[i] == b[i]);
            }
            assert(sem_eq(a.last(), b.last()));
        }
    }
}

/// Whether two values are semantically equal.
#[verifier::loop_isolation(false)]
pub fn value_eq(a: &Value, b: &Value) -> (r: bool)
    ensures
        r == sem_eq(a.dv(), b.dv()),
    decreases a, 0int,
{
    match (a, b) {
        (Value::Null, Value::Null) => true,
        (Value::Bool(x), Value::Bool(y)) => x == y,
        (Value::Number(x), Value::Number(y)) => x == y,
        (Value::Str(x), Value::Str(y)) => x.same_chars(y),
        (Value::List(xs), Value::List(ys)) => vec_sem_eq(xs, ys),
        (Value::Tuple(xs), Value::Tuple(ys)) => vec_sem_eq(xs, ys),
        (Value::Dict(x), Value::Dict(y)) => dict_sem_eq(x, y),
        (Value::Object(x), Value::Object(y)) => x == y,
        _ => false,
    }
}

/// Whether two vectors of values are element-wise semantically equal.
#[verifier::loop_isolation(false)]
fn vec_sem_eq(xs: &Vec<Value>, ys: &Vec<Value>) -> (r: bool)
    ensures
        r == seq_sem_eq(seq_dv(xs@), seq_dv(ys@)),
    decreases xs, 1int,
{
    proof {
        lemma_seq_dv_len(xs@);
        lemma_seq_dv_len(ys@);
        lemma_seq_sem_eq(seq_dv(xs@), seq_dv(ys@));
    }
    if xs.len() != ys.len() {
        return false;
    }
    let mut i: usize = 0;
    while i < xs.len()
        invariant
            i <= xs.len(),
            forall|j: int| 0 <= j < i ==> #[trigger] sem_eq(seq_dv(xs@)[j], seq_dv(ys@)[j]),
        decreases xs.len() - i,
    {
        let e = value_eq(&xs[i], &ys[i]);
        proof {
            lemma_seq_dv_index(xs@, i as int);
            lemma_seq_dv_index(ys@, i as int);
        }
        if !e {
            return false;
        }
        i = i + 1;
    }
    true
}

/// The position of the first entry whose key matches, if any.
#[verifier::loop_isolation(false)]
pub fn find_entry_at(entries: &Vec<(Value, Value)>, key: &Value) -> (r: Option<usize>)
    ensures
        match r {
            Some(j) => Some(j as int) == find_entry(entry_seq_dv(entries@), key.dv()),
            None => find_entry(entry_seq_dv(entries@), key.dv()) is None,
        },
{
    let ghost es = entry_seq_dv(entries@);
    proof {
        lemma_entry_seq_dv_len(entries@);
    }
    let mut j: usize = 0;
    proof {
        assert(es.skip(0) =~= es);
    }
    while j < entries.len()
        invariant
            j <= entries.len(),
            find_entry(es, key.dv()) == match find_entry(es.skip(j as int), key.dv()) {
                Some(t) => Some(t + j),
                None => None::<int>,
            },
        decreases entries.len() - j,
    {
        let m = entries[j].0.key_eq(key);
        proof {
            lemma_entry_seq_dv_index(entries@, j as int);
            assert(es.skip(j as int)[0] == es[j as int]);
            assert(es.skip(j as int).drop_first() =~= es.skip(j + 1));
        }
        if m {
            return Some(j);
        }
        j = j + 1;
    }
    proof {
        assert(es.skip(entries@.len() as int) =~= Seq::<(ValM, ValM)>::empty());
    }
    None
}

/// Whether two maps hold semantically equal data entries, in any order.
#[verifier::loop_isolation(false)]
fn dict_sem_eq(a: &Dict, b: &Dict) -> (r: bool)
    ensures
        r == sem_eq(ValM::Dict(a.dv()), ValM::Dict(b.dv())),
    decreases a, 1int,
{
    proof {
        lemma_entry_seq_dv_len(a.entries@);
        lemma_entry_seq_dv_len(b.entries@);
    }
    if a.entries.len() != b.entries.len() {
        return false;
    }
    let ghost ea = entry_seq_dv(a.entries@);
    let ghost eb = entry_seq_dv(b.entries@);
    let mut i: usize = 0;
    proof {
        assert(ea.skip(0) =~= ea);
    }
    while i < a.entries.len()
        invariant
            i <= a.entries.len(),
            entries_sub(ea, eb) == entries_sub(ea.skip(i as int), eb),
        decreases a.entries.len() - i,
    {
        proof {
            lemma_entry_seq_dv_index(a.entries@, i as int);
            assert(ea.skip(i as int)[0] == ea[i as int]);
            assert(ea.skip(i as int).drop_first() =~= ea.skip(i + 1));
        }
        let found = find_entry_at(&b.entries, &a.entries[i].0);
        match found {
            Some(j) => {
                proof {
                    crate::ops::lemma_find_entry_in_range(eb, ea[i as int].0);
                    lemma_entry_seq_dv_index(b.entries@, j as int);
                }
                let e = value_eq(&a.entries[i].1, &b.entries[j].1);
                if !e {
                    return false;
                }
            },
            None => {
                return false;
            },
        }
        i = i + 1;
    }
    proof {
        assert(ea.skip(a.entries@.len() as int) =~= Seq::<(ValM, ValM)>::empty());
    }
    true
}

/// A found entry lies within the entry sequence.
pub proof fn lemma_find_entry_in_range(entries: Seq<(ValM, ValM)>, key: ValM)
    ensures
        match find_entry(entries, key) {
            Some(j) => 0 <= j < entries.len() && key_match(entries[j].0, key),
            None => true,
        },
    decreases entries.len(),
{
    if entries.len() > 0 && !key_match(entries[0].0, key) {
        lemma_find_entry_in_range(entries.drop_first(), key);
    }
}

/// Whether one string is lexicographically before another.
#[verifier::loop_isolation(false)]
fn str_less(a: &KString, b: &KString) -> (r: bool)
    ensures
        r == lex_less(a@, b@),
{
    let mut i: usize = 0;
    proof {
        assert(a@.skip(0) =~= a@);
        assert(b@.skip(0) =~= b@);
    }
    while i < a.chars.len() && i < b.chars.len()
        invariant
            i <= a@.len(),
            i <= b@.len(),
            lex_less(a@, b@) == lex_less(a@.skip(i as int), b@.skip(i as int)),
        decreases a@.len() - i,
    {
        proof {
            assert(a@.skip(i as int)[0] == a@[i as int]);
            assert(b@.skip(i as int)[0] == b@[i as int]);
            assert(a@.skip(i as int).drop_first() =~= a@.skip(i + 1));
            assert(b@.skip(i as int).drop_first() =~= b@.skip(i + 1));
        }
        if a.chars[i] != b.chars[i] {
            return a.chars[i] < b.chars[i];
        }
        i = i + 1;
    }
    proof {
        if i >= a@.len() {
            assert(a@.skip(i as int) =~= Seq::<char>::empty());
        }
        if i >= b@.len() {
            assert(b@.skip(i as int) =~= Seq::<char>::empty());
        }
    }
    i >= a.chars.len() && i < b.chars.len()
}

/// The concatenation of two strings.
fn str_concat(a: KString, b: &KString) -> (r: KString)
    ensures
        r@ == a@ + b@,
{
    let mut chars = a.chars;
    let ghost pre = chars@;
    let mut i: usize = 0;
    while i < b.chars.len()
        invariant
            i <= b.chars.len(),
            chars@ == pre + b.chars@.subrange(0, i as int),
        decreases b.chars.len() - i,
    {
        chars.push(b.chars[i]);
        proof {
            assert(chars@ =~= pre + b.chars@.subrange(0, i + 1));
        }
        i = i + 1;
    }
    proof {
        assert(pre + b.chars@.subrange(0, b.chars@.len() as int) =~= pre + b.chars@);
    }
    KString { chars }
}

/// The boolean an ordering operation reports, given the two strict orders.
fn order_exec(op: Op, lt: bool, gt: bool) -> (r: bool)
    requires
        is_ordering(op),
    ensures
        r == order_result(op, lt, gt),
{
    match op {
        Op::Less => lt,
        Op::LessOrEqual => !gt,
        Op::Greater => gt,
        _ => !lt,
    }
}

/// The checked numeric result of an arithmetic operation.
fn num_exec(op: Op, x: i64, y: i64) -> (r: Result<i64, Error>)
    requires
        is_arith(op),
    ensures
        match r {
            Ok(z) => clip_num(num_result(op, x as int, y as int)) == Ok::<ValM, Error>(
                ValM::Num(z),
            ),
            Err(e) => clip_num(num_result(op, x as int, y as int)) == Err::<ValM, Error>(e),
        },
{
    let c = match op {
        Op::Add => x.checked_add(y),
        Op::Subtract => x.checked_sub(y),
        Op::Multiply => x.checked_mul(y),
        Op::Divide => x.checked_div_euclid(y),
        _ => x.checked_rem_euclid(y),
    };
    match c {
        Some(z) => Ok(z),
        None => Err(Error::InvalidArgument { context: Ctx::Arithmetic }),
    }
}

/// Executes a binary operator on two values, resolving the dispatch
/// protocol: the result is exactly what `bin_spec` says for the models.
pub fn run_binary_op(op: Op, a: Value, b: Value) -> (r: Result<Value, Error>)
    ensures
        match r {
            Ok(v) => bin_spec(op, a.dv(), b.dv()) == Ok::<ValM, Error>(v.dv()),
            Err(e) => bin_spec(op, a.dv(), b.dv()) == Err::<ValM, Error>(e),
        },
{
    if let Op::Equal = op {
        return Ok(Value::Bool(value_eq(&a, &b)));
    }
    if let Op::NotEqual = op {
        return Ok(Value::Bool(!value_eq(&a, &b)));
    }
    let arith = match op {
        Op::Add | Op::Subtract | Op::Multiply | Op::Divide | Op::Remainder => true,
        _ => false,
    };
    let ordering = match op {
        Op::Less | Op::LessOrEqual | Op::Greater | Op::GreaterOrEqual => true,
        _ => false,
    };
    match (a, b) {
        (Value::Number(x), Value::Number(y)) => {
            if arith {
                match num_exec(op, x, y) {
                    Ok(z) => Ok(Value::Number(z)),
                    Err(e) => Err(e),
                }
            } else if ordering {
                Ok(Value::Bool(order_exec(op, x < y, x > y)))
            } else {
                Err(Error::UnsupportedOperation { op, kind: Kind::Number })
            }
        },
        (Value::Str(x), Value::Str(y)) => {
            if let Op::Add = op {
                Ok(Value::Str(str_concat(x, &y)))
            } else if ordering {
                let lt = str_less(&x, &y);
                let gt = str_less(&y, &x);
                Ok(Value::Bool(order_exec(op, lt, gt)))
            } else {
                Err(Error::UnsupportedOperation { op, kind: Kind::Str })
            }
        },
        (Value::List(x), Value::List(y)) => {
            if let Op::Add = op {
                let mut out = x;
                let ghost px = out@;
                let mut i: usize = 0;
                proof {
                    lemma_seq_dv_len(y@);
                }
                while i < y.len()
                    invariant
                        i <= y.len(),
                        seq_dv(out@) == seq_dv(px) + seq_dv(y@).subrange(0, i as int),
                    decreases y.len() - i,
                {
                    let ghost pre = out@;
                    let elem = y[i].dup();
                    out.push(elem);
                    proof {
                        crate::value::lemma_seq_dv_push(pre, elem);
                        lemma_seq_dv_index(y@, i as int);
                        lemma_seq_dv_len(y@);
                        assert(seq_dv(out@) =~= seq_dv(px) + seq_dv(y@).subrange(0, i + 1));
                    }
                    i = i + 1;
                }
                proof {
                    assert(seq_dv(y@).subrange(0, seq_dv(y@).len() as int) =~= seq_dv(y@));
                }
                Ok(Value::List(out))
            } else {
                Err(Error::UnsupportedOperation { op, kind: Kind::List })
            }
        },
        (Value::Object(ObjInstance::Num(x)), Value::Object(ObjInstance::Num(y))) => {
            if arith {
                match num_exec(op, x, y) {
                    Ok(z) => Ok(Value::Object(ObjInstance::Num(z))),
                    Err(e) => Err(e),
                }
            } else if ordering {
                Ok(Value::Bool(order_exec(op, x < y, x > y)))
            } else {
                Err(Error::UnsupportedOperation { op, kind: Kind::Object })
            }
        },
        (Value::Object(ObjInstance::Num(x)), Value::Number(y)) => {
            if arith {
                match num_exec(op, x, y) {
                    Ok(z) => Ok(Value::Object(ObjInstance::Num(z))),
                    Err(e) => Err(e),
                }
            } else if ordering {
                Ok(Value::Bool(order_exec(op, x < y, x > y)))
            } else {
                Err(Error::UnsupportedOperation { op, kind: Kind::Object })
            }
        },
        (Value::Object(ObjInstance::Opaque), _) => Err(Error::UnsupportedOperation {
            op,
            kind: Kind::Object,
        }),
        (a2, b2) => Err(Error::TypeMismatch {
            expected: Expectation::OfKind(a2.kind()),
            found: b2.kind(),
        }),
    }
}

/// What negating a value returns: numbers and numeric object instances
/// negate, checked; other kinds do not support the operation.
pub open spec fn neg_spec(a: ValM) -> Result<ValM, Error> {
    match a {
        ValM::Num(x) => if x == i64::MIN {
            Err(Error::InvalidArgument { context: Ctx::Arithmetic })
        } else {
            Ok(ValM::Num((-(x as int)) as i64))
        },
        ValM::Obj(ObjInstance::Num(x)) => if x == i64::MIN {
            Err(Error::InvalidArgument { context: Ctx::Arithmetic })
        } else {
            Ok(ValM::Obj(ObjInstance::Num((-(x as int)) as i64)))
        },
        _ => Err(Error::UnsupportedOperation { op: Op::Negate, kind: kind_of(a) }),
    }
}

/// Executes the negation capability on a value.
pub fn run_unary_negate(v: Value) -> (r: Result<Value, Error>)
    ensures
        match r {
            Ok(w) => neg_spec(v.dv()) == Ok::<ValM, Error>(w.dv()),
            Err(e) => neg_spec(v.dv()) == Err::<ValM, Error>(e),
        },
{
    match v {
        Value::Number(x) => {
            if x == i64::MIN {
                Err(Error::InvalidArgument { context: Ctx::Arithmetic })
            } else {
                Ok(Value::Number(-x))
            }
        },
        Value::Object(ObjInstance::Num(x)) => {
            if x == i64::MIN {
                Err(Error::InvalidArgument { context: Ctx::Arithmetic })
            } else {
                Ok(Value::Object(ObjInstance::Num(-x)))
            }
        },
        other => {
            proof {
                crate::value::lemma_kind_dv(other);
            }
            Err(Error::UnsupportedOperation { op: Op::Negate, kind: other.kind() })
        },
    }
}

/// What indexing an object instance returns: a numeric instance indexed by
/// a number answers their checked sum, deciding itself which kinds it
/// accepts; an instance without the capability reports it.
pub open spec fn obj_index_spec(o: ObjInstance, key: ValM) -> Result<ValM, Error> {
    match o {
        ObjInstance::Num(n) => match key {
            ValM::Num(i) => clip_num(Ok(n + i)),
            _ => Err(Error::TypeMismatch {
                expected: Expectation::OfKind(Kind::Number),
                found: kind_of(key),
            }),
        },
        ObjInstance::Opaque => Err(Error::UnsupportedOperation {
            op: Op::Index,
            kind: Kind::Object,
        }),
    }
}

/// Executes the indexing capability of an object instance.
pub fn obj_index(o: ObjInstance, key: Value) -> (r: Result<Value, Error>)
    ensures
        match r {
            Ok(v) => obj_index_spec(o, key.dv()) == Ok::<ValM, Error>(v.dv()),
            Err(e) => obj_index_spec(o, key.dv()) == Err::<ValM, Error>(e),
        },
{
    match o {
        ObjInstance::Num(n) => match key {
            Value::Number(i) => match n.checked_add(i) {
                Some(z) => Ok(Value::Number(z)),
                None => Err(Error::InvalidArgument { context: Ctx::Arithmetic }),
            },
            other => {
                proof {
                    crate::value::lemma_kind_dv(other);
                }
                Err(Error::TypeMismatch {
                    expected: Expectation::OfKind(Kind::Number),
                    found: other.kind(),
                })
            },
        },
        ObjInstance::Opaque => Err(Error::UnsupportedOperation {
            op: Op::Index,
            kind: Kind::Object,
        }),
    }
}

/// What calling an object instance returns: a numeric instance answers its
/// own number, whatever the arguments; an instance without the capability
/// reports it.
pub open spec fn obj_call_spec(o: ObjInstance) -> Result<ValM, Error> {
    match o {
        ObjInstance::Num(n) => Ok(ValM::Num(n)),
        ObjInstance::Opaque => Err(Error::UnsupportedOperation {
            op: Op::Call,
            kind: Kind::Object,
        }),
    }
}

/// Executes the calling capability of an object instance.
pub fn obj_call(o: ObjInstance, args: Vec<Value>) -> (r: Result<Value, Error>)
    ensures
        match r {
            Ok(v) => obj_call_spec(o) == Ok::<ValM, Error>(v.dv()),
            Err(e) => obj_call_spec(o) == Err::<ValM, Error>(e),
        },
{
    let _ = args;
    match o {
        ObjInstance::Num(n) => Ok(Value::Number(n)),
        ObjInstance::Opaque => Err(Error::UnsupportedOperation {
            op: Op::Call,
            kind: Kind::Object,
        }),
    }
}

/// The lexicographic strict order is transitive.
pub proof fn lemma_lex_less_trans(a: Seq<char>, b: Seq<char>, c: Seq<char>)
    requires
        lex_less(a, b),
        lex_less(b, c),
    ensures
        lex_less(a, c),
    decreases a.len(),
{
    if a.len() > 0 && b.len() > 0 && c.len() > 0 {
        if a[0] == b[0] && b[0] == c[0] {
            lemma_lex_less_trans(a.drop_first(), b.drop_first(), c.drop_first());
        }
    }
}

/// The built-in strict order is transitive where it answers true.
pub proof fn lemma_less_trans(a: ValM, b: ValM, c: ValM)
    requires
        bin_spec(Op::Less, a, b) == Ok::<ValM, Error>(ValM::Bool(true)),
        bin_spec(Op::Less, b, c) == Ok::<ValM, Error>(ValM::Bool(true)),
    ensures
        bin_spec(Op::Less, a, c) == Ok::<ValM, Error>(ValM::Bool(true)),
{
    match (a, b, c) {
        (ValM::Str(x), ValM::Str(y), ValM::Str(z)) => {
            lemma_lex_less_trans(x, y, z);
        },
        _ => {},
    }
}

/// The lexicographic strict order is asymmetric.
pub proof fn lemma_lex_less_asym(a: Seq<char>, b: Seq<char>)
    requires
        lex_less(a, b),
    ensures
        !lex_less(b, a),
    decreases a.len(),
{
    if a.len() > 0 && b.len() > 0 && a[0] == b[0] {
        lemma_lex_less_asym(a.drop_first(), b.drop_first());
    }
}

/// The built-in strict order is asymmetric where it answers true.
pub proof fn lemma_less_asym(a: ValM, b: ValM)
    requires
        bin_spec(Op::Less, a, b) == Ok::<ValM, Error>(ValM::Bool(true)),
    ensures
        bin_spec(Op::Less, b, a) != Ok::<ValM, Error>(ValM::Bool(true)),
{
    match (a, b) {
        (ValM::Str(x), ValM::Str(y)) => {
            lemma_lex_less_asym(x, y);
        },
        _ => {},
    }
}

} // verus!
