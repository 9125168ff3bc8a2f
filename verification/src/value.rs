use vstd::prelude::*;

use crate::callable::{CallM, Callable};
use crate::dict::{Dict, DictM};
use crate::error::Kind;
use crate::iter::{Iter, IterM};
use crate::object::ObjInstance;

verus! {

/// An immutable string of character clusters, stored as unicode scalar values.
/// Sub-range views are taken by copying the requested range.
#[derive(Debug)]
pub struct KString {
    pub chars: Vec<char>,
}

impl View for KString {
    type V = Seq<char>;

    open spec fn view(&self) -> Seq<char> {
        self.chars@
    }
}

impl KString {
    /// The empty string.
    pub fn empty() -> (r: KString)
        ensures
            r@ == Seq::<char>::empty(),
    {
        KString { chars: Vec::new() }
    }

    pub fn from_chars(chars: Vec<char>) -> (r: KString)
        ensures
            r@ == chars@,
    {
        KString { chars }
    }

    pub fn len(&self) -> (r: usize)
        ensures
            r == self@.len(),
    {
        self.chars.len()
    }

    /// An independent copy of this string.
    pub fn dup(&self) -> (r: KString)
        ensures
            r@ == self@,
    {
        let mut chars: Vec<char> = Vec::new();
        let mut i: usize = 0;
        while i < self.chars.len()
            invariant
                i <= self.chars.len(),
                chars@ == self.chars@.subrange(0, i as int),
            decreases self.chars.len() - i,
        {
            chars.push(self.chars[i]);
            i = i + 1;
        }
        proof {
            assert(chars@ =~= self.chars@);
        }
        KString { chars }
    }

    /// The sub-range view `[start, end)` of this string.
    pub fn with_bounds(&self, start: usize, end: usize) -> (r: KString)
        requires
            start <= end <= self@.len(),
        ensures
            r@ == self@.subrange(start as int, end as int),
    {
        let mut chars: Vec<char> = Vec::new();
        let mut i: usize = start;
        while i < end
            invariant
                start <= i <= end <= self.chars.len(),
                chars@ == self.chars@.subrange(start as int, i as int),
            decreases end - i,
        {
            chars.push(self.chars[i]);
            proof {
                assert(chars@ =~= self.chars@.subrange(start as int, i + 1));
            }
            i = i + 1;
        }
        KString { chars }
    }

    /// Whether this string holds the same characters as another.
    pub fn same_chars(&self, other: &KString) -> (r: bool)
        ensures
            r == (self@ == other@),
    {
        if self.chars.len() != other.chars.len() {
            proof {
                assert(self@.len() != other@.len());
            }
            return false;
        }
        let mut i: usize = 0;
        while i < self.chars.len()
            invariant
                i <= self.chars.len(),
                self.chars.len() == other.chars.len(),
                forall|j: int| 0 <= j < i ==> self.chars@[j] == other.chars@[j],
            decreases self.chars.len() - i,
        {
            if self.chars[i] != other.chars[i] {
                proof {
                    assert(self@[i as int] != other@[i as int]);
                }
                return false;
            }
            i = i + 1;
        }
        proof {
            assert(self@ =~= other@);
        }
        true
    }
}

/// The closed sum type every script-visible datum belongs to.
#[derive(Debug)]
pub enum Value {
    Null,
    Bool(bool),
    Number(i64),
    Str(KString),
    List(Vec<Value>),
    Tuple(Vec<Value>),
    Dict(Dict),
    Iterator(Box<Iter>),
    Callable(Callable),
    Object(ObjInstance),
}

/// The mathematical model of a value: containers become sequences, strings
/// become character sequences, an iterator handle becomes its state model.
pub ghost enum ValM {
    Null,
    Bool(bool),
    Num(i64),
    Str(Seq<char>),
    List(Seq<ValM>),
    Tuple(Seq<ValM>),
    Dict(DictM),
    Iter(Box<IterM>),
    Call(CallM),
    Obj(ObjInstance),
}

/// The models of a sequence of values.
pub open spec fn seq_dv(s: Seq<Value>) -> Seq<ValM>
    decreases s, 1int,
{
    if s.len() == 0 {
        Seq::empty()
    } else {
        seq_dv(s.drop_last()).push(s.last().dv())
    }
}

/// The models of a sequence of key-value entries.
pub open spec fn entry_seq_dv(s: Seq<(Value, Value)>) -> Seq<(ValM, ValM)>
    decreases s, 1int,
{
    if s.len() == 0 {
        Seq::empty()
    } else {
        entry_seq_dv(s.drop_last()).push((s.last().0.dv(), s.last().1.dv()))
    }
}

impl Value {
    /// The model of this value.
    pub open spec fn dv(self) -> ValM
        decreases self, 0int,
    {
        match self {
            Value::Null => ValM::Null,
            Value::Bool(b) => ValM::Bool(b),
            Value::Number(n) => ValM::Num(n),
            Value::Str(s) => ValM::Str(s@),
            Value::List(v) => ValM::List(seq_dv(v@)),
            Value::Tuple(v) => ValM::Tuple(seq_dv(v@)),
            Value::Dict(d) => ValM::Dict(d.dv()),
            Value::Iterator(b) => ValM::Iter(Box::new(b.dv())),
            Value::Callable(f) => ValM::Call(f.dv()),
            Value::Object(o) => ValM::Obj(o),
        }
    }

    /// The kind tag of this value.
    pub open spec fn kind_spec(self) -> Kind {
        match self {
            Value::Null => Kind::Null,
            Value::Bool(_) => Kind::Bool,
            Value::Number(_) => Kind::Number,
            Value::Str(_) => Kind::Str,
            Value::List(_) => Kind::List,
            Value::Tuple(_) => Kind::Tuple,
            Value::Dict(_) => Kind::Dict,
            Value::Iterator(_) => Kind::Iterator,
            Value::Callable(_) => Kind::Callable,
            Value::Object(_) => Kind::Object,
        }
    }

    pub fn kind(&self) -> (r: Kind)
        ensures
            r == self.kind_spec(),
    {
        match self {
            Value::Null => Kind::Null,
            Value::Bool(_) => Kind::Bool,
            Value::Number(_) => Kind::Number,
            Value::Str(_) => Kind::Str,
            Value::List(_) => Kind::List,
            Value::Tuple(_) => Kind::Tuple,
            Value::Dict(_) => Kind::Dict,
            Value::Iterator(_) => Kind::Iterator,
            Value::Callable(_) => Kind::Callable,
            Value::Object(_) => Kind::Object,
        }
    }
}

/// A value's kind tag and its model's agree.
pub proof fn lemma_kind_dv(v: Value)
    ensures
        v.kind_spec() == kind_of(v.dv()),
{
}

/// The kind tag of a value model.
pub open spec fn kind_of(m: ValM) -> Kind {
    match m {
        ValM::Null => Kind::Null,
        ValM::Bool(_) => Kind::Bool,
        ValM::Num(_) => Kind::Number,
        ValM::Str(_) => Kind::Str,
        ValM::List(_) => Kind::List,
        ValM::Tuple(_) => Kind::Tuple,
        ValM::Dict(_) => Kind::Dict,
        ValM::Iter(_) => Kind::Iterator,
        ValM::Call(_) => Kind::Callable,
        ValM::Obj(_) => Kind::Object,
    }
}

/// Two values match as map keys: both keyable and with equal models.
pub open spec fn key_match(a: ValM, b: ValM) -> bool {
    keyable(a) && keyable(b) && a == b
}

/// Whether a value may serve as a map key: the immutable, orderable kinds,
/// with tuples keyable when all their elements are.
pub open spec fn keyable(m: ValM) -> bool
    decreases m, 0int,
{
    match m {
        ValM::Null => true,
        ValM::Bool(_) => true,
        ValM::Num(_) => true,
        ValM::Str(_) => true,
        ValM::Tuple(elems) => keyable_seq(elems),
        _ => false,
    }
}

/// Whether every element of a sequence of models is keyable.
pub open spec fn keyable_seq(s: Seq<ValM>) -> bool
    decreases s, 1int,
{
    s.len() == 0 || (keyable_seq(s.drop_last()) && keyable(s.last()))
}

/// `keyable_seq` says exactly that each element is keyable.
pub proof fn lemma_keyable_seq(s: Seq<ValM>)
    ensures
        keyable_seq(s) <==> forall|i: int| 0 <= i < s.len() ==> #[trigger] keyable(s[i]),
    decreases s.len(),
{
    if s.len() > 0 {
        lemma_keyable_seq(s.drop_last());
        if keyable_seq(s) {
            assert forall|i: int| 0 <= i < s.len() implies #[trigger] keyable(s[i]) by {
                if i < s.len() - 1 {
                    assert(s.drop_last()[i] == s[i]);
                } else {
                    assert(s[i] == s.last());
                }
            }
        }
        if forall|i: int| 0 <= i < s.len() ==> #[trigger] keyable(s[i]) {
            assert forall|i: int| 0 <= i < s.drop_last().len() implies #[trigger] keyable(
                s.drop_last()[i],
            ) by {
                assert(s.drop_last()[i] == s[i]);
            }
            assert(keyable(s.last()));
        }
    }
}

/// The model of a pushed element stands at the pushed position.
pub proof fn lemma_seq_dv_push(s: Seq<Value>, v: Value)
    ensures
        seq_dv(s.push(v)) == seq_dv(s).push(v.dv()),
{
    assert(s.push(v).drop_last() =~= s);
    assert(s.push(v).last() == v);
}

/// The model sequence indexes to the models of the elements.
pub proof fn lemma_seq_dv_len(s: Seq<Value>)
    ensures
        seq_dv(s).len() == s.len(),
    decreases s.len(),
{
    if s.len() > 0 {
        lemma_seq_dv_len(s.drop_last());
    }
}

pub proof fn lemma_seq_dv_index(s: Seq<Value>, i: int)
    requires
        0 <= i < s.len(),
    ensures
        seq_dv(s).len() == s.len(),
        seq_dv(s)[i] == s[i].dv(),
    decreases s.len(),
{
    lemma_seq_dv_len(s);
    if i < s.len() - 1 {
        lemma_seq_dv_index(s.drop_last(), i);
    }
}

pub proof fn lemma_entry_seq_dv_len(s: Seq<(Value, Value)>)
    ensures
        entry_seq_dv(s).len() == s.len(),
    decreases s.len(),
{
    if s.len() > 0 {
        lemma_entry_seq_dv_len(s.drop_last());
    }
}

pub proof fn lemma_entry_seq_dv_index(s: Seq<(Value, Value)>, i: int)
    requires
        0 <= i < s.len(),
    ensures
        entry_seq_dv(s).len() == s.len(),
        entry_seq_dv(s)[i] == (s[i].0.dv(), s[i].1.dv()),
    decreases s.len(),
{
    lemma_entry_seq_dv_len(s);
    if i < s.len() - 1 {
        lemma_entry_seq_dv_index(s.drop_last(), i);
    }
}

impl Value {
    #[verifier::loop_isolation(false)]
    pub fn key_ok(&self) -> (r: bool)
        ensures
            r == keyable(self.dv()),
        decreases self,
    {
        match self {
            Value::Null => true,
            Value::Bool(_) => true,
            Value::Number(_) => true,
            Value::Str(_) => true,
            Value::Tuple(elems) => {
                proof {
                    lemma_seq_dv_len(elems@);
                }
                let mut i: usize = 0;
                while i < elems.len()
                    invariant
                        i <= elems.len(),
                        seq_dv(elems@).len() == elems@.len(),
                        forall|j: int| 0 <= j < i ==> #[trigger] keyable(seq_dv(elems@)[j]),
                    decreases elems.len() - i,
                {
                    let ok = elems[i].key_ok();
                    proof {
                        lemma_seq_dv_index(elems@, i as int);
                    }
                    if !ok {
                        proof {
                            lemma_keyable_seq(seq_dv(elems@));
                            assert(!keyable(seq_dv(elems@)[i as int]));
                            assert(!keyable(ValM::Tuple(seq_dv(elems@))));
                        }
                        return false;
                    }
                    i = i + 1;
                }
                proof {
                    lemma_keyable_seq(seq_dv(elems@));
                    assert(keyable(ValM::Tuple(seq_dv(elems@))));
                }
                true
            },
            _ => false,
        }
    }

    /// Whether this value and another have equal models, decided for the
    /// keyable kinds; when either side is not keyable the answer is `false`.
    #[verifier::loop_isolation(false)]
    pub fn key_eq(&self, other: &Value) -> (r: bool)
        ensures
            r == key_match(self.dv(), other.dv()),
        decreases self,
    {
        match (self, other) {
            (Value::Null, Value::Null) => true,
            (Value::Bool(a), Value::Bool(b)) => a == b,
            (Value::Number(a), Value::Number(b)) => a == b,
            (Value::Str(a), Value::Str(b)) => a.same_chars(b),
            (Value::Tuple(xs), Value::Tuple(ys)) => {
                proof {
                    lemma_seq_dv_len(xs@);
                    lemma_seq_dv_len(ys@);
                }
                if xs.len() != ys.len() {
                    return false;
                }
                let mut i: usize = 0;
                while i < xs.len()
                    invariant
                        i <= xs.len(),
                        xs@.len() == ys@.len(),
                        seq_dv(xs@).len() == xs@.len(),
                        seq_dv(ys@).len() == ys@.len(),
                        forall|j: int| 0 <= j < i ==> #[trigger] keyable(seq_dv(xs@)[j]),
                        forall|j: int| 0 <= j < i ==> #[trigger] keyable(seq_dv(ys@)[j]),
                        forall|j: int| #![trigger seq_dv(xs@)[j]] 0 <= j < i ==> seq_dv(xs@)[j]
                            == seq_dv(ys@)[j],
                    decreases xs.len() - i,
                {
                    let e = xs[i].key_eq(&ys[i]);
                    proof {
                        lemma_seq_dv_index(xs@, i as int);
                        lemma_seq_dv_index(ys@, i as int);
                    }
                    if !e {
                        proof {
                            lemma_keyable_seq(seq_dv(xs@));
                            lemma_keyable_seq(seq_dv(ys@));
                            if keyable(self.dv()) && keyable(other.dv()) {
                                assert(keyable(seq_dv(xs@)[i as int]));
                                assert(keyable(seq_dv(ys@)[i as int]));
                                assert(seq_dv(xs@)[i as int] != seq_dv(ys@)[i as int]);
                                assert(self.dv() != other.dv());
                            }
                        }
                        return false;
                    }
                    proof {
                        assert(keyable(seq_dv(xs@)[i as int]));
                        assert(keyable(seq_dv(ys@)[i as int]));
                        assert(seq_dv(xs@)[i as int] == seq_dv(ys@)[i as int]);
                    }
                    i = i + 1;
                }
                proof {
                    lemma_keyable_seq(seq_dv(xs@));
                    lemma_keyable_seq(seq_dv(ys@));
                    assert forall|j: int| 0 <= j < seq_dv(xs@).len() implies seq_dv(xs@)[j]
                        == seq_dv(ys@)[j] by {
                        assert(keyable(seq_dv(xs@)[j]));
                    }
                    assert(seq_dv(xs@) =~= seq_dv(ys@));
                    assert forall|j: int| 0 <= j < seq_dv(xs@).len() implies #[trigger] keyable(
                        seq_dv(xs@)[j],
                    ) by {}
                    assert(keyable(ValM::Tuple(seq_dv(xs@))));
                    assert(keyable(ValM::Tuple(seq_dv(ys@))));
                }
                true
            },
            _ => {
                proof {
                    if keyable(self.dv()) && keyable(other.dv()) {
                        assert(kind_of(self.dv()) != kind_of(other.dv()));
                    }
                }
                false
            },
        }
    }
}

/// An independent copy of each element, preserving the models.
pub fn dup_vec(v: &Vec<Value>) -> (r: Vec<Value>)
    ensures
        seq_dv(r@) == seq_dv(v@),
    decreases v, 1int,
{
    let mut r: Vec<Value> = Vec::new();
    let mut i: usize = 0;
    while i < v.len()
        invariant
            i <= v.len(),
            seq_dv(r@) == seq_dv(v@.subrange(0, i as int)),
        decreases v.len() - i,
    {
        let ghost pre = r@;
        let x = v[i].dup();
        r.push(x);
        proof {
            lemma_seq_dv_push(pre, x);
            lemma_seq_dv_index(v@, i as int);
            assert(v@.subrange(0, i + 1).drop_last() =~= v@.subrange(0, i as int));
            assert(v@.subrange(0, i + 1).last() == v@[i as int]);
        }
        i = i + 1;
    }
    proof {
        assert(v@.subrange(0, v@.len() as int) =~= v@);
    }
    r
}

impl Value {
    /// An independent copy of this value: ownership is not shared, and the
    /// model is preserved.
    pub fn dup(&self) -> (r: Value)
        ensures
            r.dv() == self.dv(),
        decreases self, 0int,
    {
        match self {
            Value::Null => Value::Null,
            Value::Bool(b) => Value::Bool(*b),
            Value::Number(n) => Value::Number(*n),
            Value::Str(s) => Value::Str(s.dup()),
            Value::List(v) => Value::List(dup_vec(v)),
            Value::Tuple(v) => Value::Tuple(dup_vec(v)),
            Value::Dict(d) => Value::Dict(d.dup()),
            Value::Iterator(b) => Value::Iterator(Box::new(b.make_copy())),
            Value::Callable(f) => Value::Callable(f.dup()),
            Value::Object(o) => Value::Object(*o),
        }
    }
}

} // verus!
