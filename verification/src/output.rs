use vstd::prelude::*;

use crate::error::Error;
use crate::value::{lemma_seq_dv_index, ValM, Value};

verus! {

/// A single step's result from an iterator: a produced value, a two-element
/// production used natively by key-ordered containers, or a terminal fault
/// for this step.
#[derive(Debug)]
pub enum Out {
    Value(Value),
    ValuePair(Value, Value),
    Error(Error),
}

/// The mathematical model of an iteration output.
pub ghost enum OutM {
    V(ValM),
    P(ValM, ValM),
    E(Error),
}

impl Out {
    /// The model of this output.
    pub open spec fn dv(self) -> OutM
        decreases self, 0int,
    {
        match self {
            Out::Value(v) => OutM::V(v.dv()),
            Out::ValuePair(a, b) => OutM::P(a.dv(), b.dv()),
            Out::Error(e) => OutM::E(e),
        }
    }
}

/// Collapsing a paired production into a two-element tuple; other outputs
/// pass through unchanged.
pub open spec fn collapse(o: OutM) -> OutM {
    match o {
        OutM::P(a, b) => OutM::V(ValM::Tuple(seq![a, b])),
        _ => o,
    }
}

/// Consumers that do not special-case pairs collapse a `ValuePair` into a
/// two-element Tuple before use.
pub fn collect_pair(o: Out) -> (r: Out)
    ensures
        r.dv() == collapse(o.dv()),
{
    match o {
        Out::ValuePair(a, b) => {
            let mut elems: Vec<Value> = Vec::new();
            elems.push(a);
            elems.push(b);
            let r = Out::Value(Value::Tuple(elems));
            proof {
                crate::value::lemma_seq_dv_index(elems@, 0);
                crate::value::lemma_seq_dv_index(elems@, 1);
                assert(crate::value::seq_dv(elems@) =~= seq![elems@[0].dv(), elems@[1].dv()]);
            }
            r
        },
        _ => o,
    }
}

/// The models of a sequence of outputs.
pub open spec fn out_seq_dv(s: Seq<Out>) -> Seq<OutM>
    decreases s, 1int,
{
    if s.len() == 0 {
        Seq::empty()
    } else {
        out_seq_dv(s.drop_last()).push(s.last().dv())
    }
}

pub proof fn lemma_out_seq_dv_len(s: Seq<Out>)
    ensures
        out_seq_dv(s).len() == s.len(),
    decreases s.len(),
{
    if s.len() > 0 {
        lemma_out_seq_dv_len(s.drop_last());
    }
}

pub proof fn lemma_out_seq_dv_index(s: Seq<Out>, i: int)
    requires
        0 <= i < s.len(),
    ensures
        out_seq_dv(s).len() == s.len(),
        out_seq_dv(s)[i] == s[i].dv(),
    decreases s.len(),
{
    lemma_out_seq_dv_len(s);
    if i < s.len() - 1 {
        lemma_out_seq_dv_index(s.drop_last(), i);
    }
}

/// The model of a pushed output stands at the pushed position.
pub proof fn lemma_out_seq_dv_push(s: Seq<Out>, x: Out)
    ensures
        out_seq_dv(s.push(x)) == out_seq_dv(s).push(x.dv()),
{
    assert(s.push(x).drop_last() =~= s);
    assert(s.push(x).last() == x);
}

impl Out {
    /// An independent copy of this output, preserving the model.
    pub fn dup(&self) -> (r: Out)
        ensures
            r.dv() == self.dv(),
        decreases self, 0int,
    {
        match self {
            Out::Value(v) => Out::Value(v.dup()),
            Out::ValuePair(a, b) => Out::ValuePair(a.dup(), b.dup()),
            Out::Error(e) => Out::Error(e.dup()),
        }
    }
}

/// An independent copy of each output, preserving the models.
pub fn dup_out_vec(v: &Vec<Out>) -> (r: Vec<Out>)
    ensures
        out_seq_dv(r@) == out_seq_dv(v@),
    decreases v, 1int,
{
    let mut r: Vec<Out> = Vec::new();
    let mut i: usize = 0;
    while i < v.len()
        invariant
            i <= v.len(),
            out_seq_dv(r@) == out_seq_dv(v@.subrange(0, i as int)),
        decreases v.len() - i,
    {
        let ghost pre = r@;
        let x = v[i].dup();
        r.push(x);
        proof {
            assert(r@.drop_last() =~= pre);
            lemma_out_seq_dv_index(v@, i as int);
            assert(v@.subrange(0, i + 1).drop_last() =~= v@.subrange(0, i as int));
            assert(v@.subrange(0, i + 1).last() == v@[i as int]);
        }
        i = i + 1;
    }
    proof {
        assert(v@.subrange(0, v@.len() as int) =~= v@);
    }
    r
}

} // verus!
