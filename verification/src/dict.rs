use vstd::prelude::*;

use crate::callable::{call_spec, run_callable, CallM, Callable};
use crate::ops::{bin_spec, run_binary_op};
use crate::core_iter::opt_call_dv;
use crate::error::{Error, Expectation, Kind, Op};
use crate::iter::{Iter, IterM};
use crate::value::{entry_seq_dv, keyable, lemma_entry_seq_dv_index, lemma_entry_seq_dv_len, ValM, Value};

verus! {

/// An insertion-ordered key-to-value container. Besides its data entries an
/// instance may carry an optional attached secondary container, the meta
/// channel, holding capability overrides distinct from the data.
#[derive(Debug)]
pub struct Dict {
    pub entries: Vec<(Value, Value)>,
    pub meta: Option<Box<Dict>>,
}

/// The model of a map: its entry sequence and the model of its meta channel.
pub ghost struct DictM {
    pub entries: Seq<(ValM, ValM)>,
    pub meta: Option<Box<DictM>>,
}

impl Dict {
    /// The model of this map.
    pub open spec fn dv(self) -> DictM
        decreases self,
    {
        DictM {
            entries: entry_seq_dv(self.entries@),
            meta: match self.meta {
                Some(m) => Some(Box::new(m.dv())),
                None => None,
            },
        }
    }

    /// An empty map without a meta channel.
    pub fn empty() -> (r: Dict)
        ensures
            r.dv() == (DictM { entries: Seq::<(ValM, ValM)>::empty(), meta: None::<Box<DictM>> }),
    {
        let r = Dict { entries: Vec::new(), meta: None };
        proof {
            assert(entry_seq_dv(r.entries@) =~= Seq::<(ValM, ValM)>::empty());
        }
        r
    }
}

impl Dict {
    /// An independent copy of this map, preserving the model of the data
    /// entries and of the meta channel.
    pub fn dup(&self) -> (r: Dict)
        ensures
            r.dv() == self.dv(),
        decreases self,
    {
        let mut entries: Vec<(Value, Value)> = Vec::new();
        let mut i: usize = 0;
        while i < self.entries.len()
            invariant
                i <= self.entries.len(),
                entry_seq_dv(entries@) == entry_seq_dv(self.entries@.subrange(0, i as int)),
            decreases self.entries.len() - i,
        {
            let ghost pre = entries@;
            let k = self.entries[i].0.dup();
            let v = self.entries[i].1.dup();
            entries.push((k, v));
            proof {
                assert(entries@.drop_last() =~= pre);
                crate::value::lemma_entry_seq_dv_index(self.entries@, i as int);
                assert(self.entries@.subrange(0, i + 1).drop_last() =~= self.entries@.subrange(
                    0,
                    i as int,
                ));
                assert(self.entries@.subrange(0, i + 1).last() == self.entries@[i as int]);
            }
            i = i + 1;
        }
        proof {
            assert(self.entries@.subrange(0, self.entries@.len() as int) =~= self.entries@);
        }
        let meta = match &self.meta {
            Some(m) => Some(Box::new(m.dup())),
            None => None,
        };
        Dict { entries, meta }
    }
}

/// The error a non-keyable map key is rejected with.
pub open spec fn bad_key_err(m: ValM) -> Error {
    Error::TypeMismatch { expected: Expectation::KeyKind, found: crate::value::kind_of(m) }
}

impl Dict {
    /// How many data entries the map holds.
    pub fn size(&self) -> (r: usize)
        ensures
            r == self.dv().entries.len(),
    {
        proof {
            lemma_entry_seq_dv_len(self.entries@);
        }
        self.entries.len()
    }

    /// Whether the map holds no data entries.
    pub fn is_empty(&self) -> (r: bool)
        ensures
            r == (self.dv().entries.len() == 0),
    {
        proof {
            lemma_entry_seq_dv_len(self.entries@);
        }
        self.entries.len() == 0
    }

    /// Removes every data entry, keeping the meta channel.
    pub fn clear(&mut self)
        ensures
            final(self).dv().entries == Seq::<(ValM, ValM)>::empty(),
            final(self).dv().meta == old(self).dv().meta,
    {
        self.entries.clear();
        proof {
            assert(entry_seq_dv(self.entries@) =~= Seq::<(ValM, ValM)>::empty());
        }
    }

    /// Whether the map holds an entry under the key.
    pub fn contains_key(&self, key: &Value) -> (r: bool)
        ensures
            r == (crate::ops::find_entry(self.dv().entries, key.dv()) is Some),
    {
        match crate::ops::find_entry_at(&self.entries, key) {
            Some(_) => true,
            None => false,
        }
    }

    /// The value stored under the key, or the given default.
    pub fn get(&self, key: &Value, default: Value) -> (r: Value)
        ensures
            match crate::ops::find_entry(self.dv().entries, key.dv()) {
                Some(j) => r.dv() == self.dv().entries[j].1,
                None => r.dv() == default.dv(),
            },
    {
        proof {
            lemma_entry_seq_dv_len(self.entries@);
        }
        match crate::ops::find_entry_at(&self.entries, key) {
            Some(j) => {
                proof {
                    crate::ops::lemma_find_entry_in_range(
                        entry_seq_dv(self.entries@),
                        key.dv(),
                    );
                    lemma_entry_seq_dv_index(self.entries@, j as int);
                }
                self.entries[j].1.dup()
            },
            None => default,
        }
    }

    /// The entry at an insertion-order position, as a two-element tuple, or
    /// the given default outside the range.
    pub fn get_index(&self, index: usize, default: Value) -> (r: Value)
        ensures
            index < self.dv().entries.len() ==> r.dv() == ValM::Tuple(
                seq![
                    self.dv().entries[index as int].0,
                    self.dv().entries[index as int].1,
                ],
            ),
            index >= self.dv().entries.len() ==> r.dv() == default.dv(),
    {
        proof {
            lemma_entry_seq_dv_len(self.entries@);
        }
        if index < self.entries.len() {
            proof {
                lemma_entry_seq_dv_index(self.entries@, index as int);
            }
            let mut pair: Vec<Value> = Vec::new();
            pair.push(self.entries[index].0.dup());
            pair.push(self.entries[index].1.dup());
            proof {
                crate::value::lemma_seq_dv_index(pair@, 0);
                crate::value::lemma_seq_dv_index(pair@, 1);
                assert(crate::value::seq_dv(pair@) =~= seq![pair@[0].dv(), pair@[1].dv()]);
            }
            Value::Tuple(pair)
        } else {
            default
        }
    }

    /// Stores a value under a key: an existing entry keeps its place and
    /// hands back the old value, a new entry is appended; a non-keyable key
    /// is rejected and the map is unchanged.
    pub fn insert(&mut self, key: Value, value: Value) -> (r: Result<Value, Error>)
        ensures
            !keyable(key.dv()) ==> r is Err && r->Err_0 == bad_key_err(key.dv())
                && final(self).dv() == old(self).dv(),
            keyable(key.dv()) ==> ({
                &&& r is Ok
                &&& final(self).dv().meta == old(self).dv().meta
                &&& match crate::ops::find_entry(old(self).dv().entries, key.dv()) {
                    Some(j) => final(self).dv().entries == old(self).dv().entries.update(
                        j,
                        (old(self).dv().entries[j].0, value.dv()),
                    ) && r->Ok_0.dv() == old(self).dv().entries[j].1,
                    None => final(self).dv().entries == old(self).dv().entries.push(
                        (key.dv(), value.dv()),
                    ) && r->Ok_0.dv() == ValM::Null,
                }
            }),
    {
        if !key.key_ok() {
            return Err(Error::TypeMismatch {
                expected: Expectation::KeyKind,
                found: key.kind(),
            });
        }
        proof {
            lemma_entry_seq_dv_len(self.entries@);
        }
        match crate::ops::find_entry_at(&self.entries, &key) {
            Some(j) => {
                proof {
                    crate::ops::lemma_find_entry_in_range(
                        entry_seq_dv(self.entries@),
                        key.dv(),
                    );
                    lemma_entry_seq_dv_index(self.entries@, j as int);
                }
                let old_value = self.entries[j].1.dup();
                let k2 = self.entries[j].0.dup();
                let ghost pre = self.entries@;
                self.entries.set(j, (k2, value));
                proof {
                    lemma_entry_update(pre, j as int, self.entries@[j as int]);
                }
                Ok(old_value)
            },
            None => {
                let ghost pre = self.entries@;
                self.entries.push((key, value));
                proof {
                    lemma_entry_push(pre, self.entries@.last());
                }
                Ok(Value::Null)
            },
        }
    }

    /// Takes the entry under a key out of the map, keeping the relative
    /// order of the remaining entries, and hands back its value; Null when
    /// the key is absent.
    pub fn remove(&mut self, key: &Value) -> (r: Value)
        ensures
            final(self).dv().meta == old(self).dv().meta,
            match crate::ops::find_entry(old(self).dv().entries, key.dv()) {
                Some(j) => final(self).dv().entries == old(self).dv().entries.remove(j)
                    && r.dv() == old(self).dv().entries[j].1,
                None => final(self).dv() == old(self).dv() && r.dv() == ValM::Null,
            },
    {
        proof {
            lemma_entry_seq_dv_len(self.entries@);
        }
        match crate::ops::find_entry_at(&self.entries, key) {
            Some(j) => {
                proof {
                    crate::ops::lemma_find_entry_in_range(
                        entry_seq_dv(self.entries@),
                        key.dv(),
                    );
                    lemma_entry_seq_dv_index(self.entries@, j as int);
                }
                let ghost pre = self.entries@;
                let (_, v) = self.entries.remove(j);
                proof {
                    lemma_entry_remove(pre, j as int);
                }
                v
            },
            None => Value::Null,
        }
    }

    /// Reads the value under the key - the given default standing in for an
    /// absent entry - hands it to the callable, stores the answer back and
    /// returns it; the read, the call and the store are one transaction
    /// with no partial state visible in between.
    pub fn update(&mut self, key: Value, default: Value, f: &Callable) -> (r: Result<
        Value,
        Error,
    >)
        ensures
            !keyable(key.dv()) ==> r is Err && final(self).dv() == old(self).dv(),
            keyable(key.dv()) ==> {
                let prior = match crate::ops::find_entry(old(self).dv().entries, key.dv()) {
                    Some(j) => old(self).dv().entries[j].1,
                    None => default.dv(),
                };
                match call_spec(f.dv(), seq![prior]) {
                    Ok(nw) => ({
                        &&& r is Ok
                        &&& r->Ok_0.dv() == nw
                        &&& final(self).dv().meta == old(self).dv().meta
                        &&& match crate::ops::find_entry(old(self).dv().entries, key.dv()) {
                            Some(j) => final(self).dv().entries
                                == old(self).dv().entries.update(
                                j,
                                (old(self).dv().entries[j].0, nw),
                            ),
                            None => final(self).dv().entries == old(self).dv().entries.push(
                                (key.dv(), nw),
                            ),
                        }
                    }),
                    Err(e) => r is Err && r->Err_0 == e && final(self).dv() == old(self).dv(),
                }
            },
    {
        if !key.key_ok() {
            return Err(Error::TypeMismatch {
                expected: Expectation::KeyKind,
                found: key.kind(),
            });
        }
        proof {
            lemma_entry_seq_dv_len(self.entries@);
        }
        let found = crate::ops::find_entry_at(&self.entries, &key);
        let prior = match found {
            Some(j) => {
                proof {
                    crate::ops::lemma_find_entry_in_range(
                        entry_seq_dv(self.entries@),
                        key.dv(),
                    );
                    lemma_entry_seq_dv_index(self.entries@, j as int);
                }
                self.entries[j].1.dup()
            },
            None => default,
        };
        let mut args: Vec<Value> = Vec::new();
        args.push(prior);
        proof {
            crate::value::lemma_seq_dv_index(args@, 0);
            assert(crate::value::seq_dv(args@) =~= seq![args@[0].dv()]);
        }
        match run_callable(f, args) {
            Err(e) => Err(e),
            Ok(nw) => {
                match found {
                    Some(j) => {
                        proof {
                            crate::ops::lemma_find_entry_in_range(
                                entry_seq_dv(self.entries@),
                                key.dv(),
                            );
                            lemma_entry_seq_dv_index(self.entries@, j as int);
                        }
                        let k2 = self.entries[j].0.dup();
                        let ghost pre = self.entries@;
                        self.entries.set(j, (k2, nw.dup()));
                        proof {
                            lemma_entry_update(pre, j as int, self.entries@[j as int]);
                        }
                        Ok(nw)
                    },
                    None => {
                        let ghost pre = self.entries@;
                        self.entries.push((key, nw.dup()));
                        proof {
                            lemma_entry_push(pre, self.entries@.last());
                        }
                        Ok(nw)
                    },
                }
            },
        }
    }

    /// An iterator over the map's keys, in insertion order.
    pub fn keys(&self) -> (r: Value)
        ensures
            r.dv() == ValM::Iter(
                Box::new(
                    IterM::PairFirst {
                        inner: Box::new(
                            IterM::OfMap {
                                entries: self.dv().entries,
                                front: 0,
                                back: self.dv().entries.len() as int,
                            },
                        ),
                    },
                ),
            ),
    {
        proof {
            lemma_entry_seq_dv_len(self.entries@);
        }
        let entries = dup_entries(&self.entries);
        proof {
            lemma_entry_seq_dv_len(entries@);
            reveal_with_fuel(Iter::dv, 3);
        }
        let back = entries.len();
        let ghost ges = entry_seq_dv(entries@);
        let om = Iter::OfMap { entries, front: 0, back };
        proof {
            assert(om.dv() == (IterM::OfMap { entries: ges, front: 0, back: back as int }));
        }
        let pf = Iter::PairFirst { inner: Box::new(om) };
        proof {
            assert(pf.dv() == (IterM::PairFirst {
                inner: Box::new(IterM::OfMap { entries: ges, front: 0, back: back as int }),
            }));
        }
        let r = Value::Iterator(Box::new(pf));
        proof {
            assert(ges == self.dv().entries);
            assert(back as int == self.dv().entries.len() as int);
        }
        r
    }

    /// An iterator over the map's values, in insertion order.
    pub fn values(&self) -> (r: Value)
        ensures
            r.dv() == ValM::Iter(
                Box::new(
                    IterM::PairSecond {
                        inner: Box::new(
                            IterM::OfMap {
                                entries: self.dv().entries,
                                front: 0,
                                back: self.dv().entries.len() as int,
                            },
                        ),
                    },
                ),
            ),
    {
        proof {
            lemma_entry_seq_dv_len(self.entries@);
        }
        let entries = dup_entries(&self.entries);
        proof {
            lemma_entry_seq_dv_len(entries@);
            reveal_with_fuel(Iter::dv, 3);
        }
        let back = entries.len();
        let ghost ges = entry_seq_dv(entries@);
        let om = Iter::OfMap { entries, front: 0, back };
        proof {
            assert(om.dv() == (IterM::OfMap { entries: ges, front: 0, back: back as int }));
        }
        let ps = Iter::PairSecond { inner: Box::new(om) };
        proof {
            assert(ps.dv() == (IterM::PairSecond {
                inner: Box::new(IterM::OfMap { entries: ges, front: 0, back: back as int }),
            }));
        }
        let r = Value::Iterator(Box::new(ps));
        proof {
            assert(ges == self.dv().entries);
            assert(back as int == self.dv().entries.len() as int);
        }
        r
    }

    /// A map carrying only this map's meta channel, or Null when there is
    /// none.
    pub fn get_meta(&self) -> (r: Value)
        ensures
            self.dv().meta is Some ==> r.dv() == ValM::Dict(
                DictM { entries: Seq::empty(), meta: self.dv().meta },
            ),
            self.dv().meta is None ==> r.dv() == ValM::Null,
    {
        proof {
            assert(entry_seq_dv(Seq::<(Value, Value)>::empty()) =~= Seq::<(ValM, ValM)>::empty());
        }
        match &self.meta {
            Some(m) => Value::Dict(
                Dict { entries: Vec::new(), meta: Some(Box::new(m.dup())) },
            ),
            None => Value::Null,
        }
    }

    /// Replaces this map's meta channel with another map's, leaving the
    /// data entries alone.
    pub fn set_meta(&mut self, other: &Dict)
        ensures
            final(self).dv().entries == old(self).dv().entries,
            final(self).dv().meta == other.dv().meta,
    {
        let meta = match &other.meta {
            Some(m) => Some(Box::new(m.dup())),
            None => None,
        };
        self.meta = meta;
    }
}

/// An independent copy of an entry run, preserving the models.
pub fn dup_entries(entries: &Vec<(Value, Value)>) -> (r: Vec<(Value, Value)>)
    ensures
        entry_seq_dv(r@) == entry_seq_dv(entries@),
{
    let mut es: Vec<(Value, Value)> = Vec::new();
    let mut i: usize = 0;
    proof {
        lemma_entry_seq_dv_len(entries@);
    }
    while i < entries.len()
        invariant
            i <= entries@.len(),
            entry_seq_dv(es@) == entry_seq_dv(entries@.subrange(0, i as int)),
        decreases entries@.len() - i,
    {
        let ghost pre = es@;
        let k = entries[i].0.dup();
        let v = entries[i].1.dup();
        es.push((k, v));
        proof {
            assert(es@.drop_last() =~= pre);
            lemma_entry_seq_dv_index(entries@, i as int);
            assert(entries@.subrange(0, i + 1).drop_last() =~= entries@.subrange(0, i as int));
            assert(entries@.subrange(0, i + 1).last() == entries@[i as int]);
        }
        i = i + 1;
    }
    proof {
        assert(entries@.subrange(0, entries@.len() as int) =~= entries@);
    }
    es
}

/// The model of an updated entry run.
proof fn lemma_entry_update(s: Seq<(Value, Value)>, j: int, x: (Value, Value))
    requires
        0 <= j < s.len(),
    ensures
        entry_seq_dv(s.update(j, x)) == entry_seq_dv(s).update(j, (x.0.dv(), x.1.dv())),
    decreases s.len(),
{
    lemma_entry_seq_dv_len(s);
    lemma_entry_seq_dv_len(s.update(j, x));
    assert forall|t: int| 0 <= t < s.len() implies entry_seq_dv(s.update(j, x))[t]
        == entry_seq_dv(s).update(j, (x.0.dv(), x.1.dv()))[t] by {
        lemma_entry_seq_dv_index(s.update(j, x), t);
        lemma_entry_seq_dv_index(s, t);
    }
    assert(entry_seq_dv(s.update(j, x)) =~= entry_seq_dv(s).update(j, (x.0.dv(), x.1.dv())));
}

/// The model of an extended entry run.
proof fn lemma_entry_push(s: Seq<(Value, Value)>, x: (Value, Value))
    ensures
        entry_seq_dv(s.push(x)) == entry_seq_dv(s).push((x.0.dv(), x.1.dv())),
{
    assert(s.push(x).drop_last() =~= s);
    assert(s.push(x).last() == x);
}

/// The model of an entry run with one entry taken out.
proof fn lemma_entry_remove(s: Seq<(Value, Value)>, j: int)
    requires
        0 <= j < s.len(),
    ensures
        entry_seq_dv(s.remove(j)) == entry_seq_dv(s).remove(j),
{
    lemma_entry_seq_dv_len(s);
    lemma_entry_seq_dv_len(s.remove(j));
    assert forall|t: int| 0 <= t < s.len() - 1 implies entry_seq_dv(s.remove(j))[t]
        == entry_seq_dv(s).remove(j)[t] by {
        lemma_entry_seq_dv_index(s.remove(j), t);
        if t < j {
            lemma_entry_seq_dv_index(s, t);
        } else {
            lemma_entry_seq_dv_index(s, t + 1);
        }
    }
    assert(entry_seq_dv(s.remove(j)) =~= entry_seq_dv(s).remove(j));
}

/// The sort key of each entry: its own map key, or what the key callable
/// answers for the key and value.
pub open spec fn sort_keys(entries: Seq<(ValM, ValM)>, key: Option<CallM>) -> Seq<
    Result<ValM, Error>,
> {
    Seq::new(
        entries.len(),
        |i: int|
            match key {
                None => Ok(entries[i].0),
                Some(f) => call_spec(f, seq![entries[i].0, entries[i].1]),
            },
    )
}

/// The first faulting sort key, if any.
pub open spec fn first_err_at(ks: Seq<Result<ValM, Error>>) -> Option<int>
    decreases ks.len(),
{
    if ks.len() == 0 {
        None
    } else if ks[0] is Err {
        Some(0)
    } else {
        match first_err_at(ks.drop_first()) {
            Some(j) => Some(j + 1),
            None => None,
        }
    }
}

/// A found first fault lies in range, is a fault, and nothing before it is.
proof fn lemma_first_err_props(ks: Seq<Result<ValM, Error>>)
    ensures
        match first_err_at(ks) {
            Some(j) => 0 <= j < ks.len() && ks[j] is Err && forall|t: int|
                0 <= t < j ==> !((#[trigger] ks[t]) is Err),
            None => forall|t: int| 0 <= t < ks.len() ==> !((#[trigger] ks[t]) is Err),
        },
    decreases ks.len(),
{
    if ks.len() > 0 && !(ks[0] is Err) {
        lemma_first_err_props(ks.drop_first());
        match first_err_at(ks) {
            Some(j) => {
                assert forall|t: int| 0 <= t < j implies !((#[trigger] ks[t]) is Err) by {
                    if t > 0 {
                        assert(ks.drop_first()[t - 1] == ks[t]);
                        assert(!(ks.drop_first()[t - 1] is Err));
                    }
                }
            },
            None => {
                assert forall|t: int| 0 <= t < ks.len() implies !((#[trigger] ks[t]) is Err) by {
                    if t > 0 {
                        assert(ks.drop_first()[t - 1] == ks[t]);
                        assert(!(ks.drop_first()[t - 1] is Err));
                    }
                }
            },
        }
    }
}

/// The sort key of one entry: its own map key, or the key callable's
/// successful answer. The fallback for a faulting call never matters on
/// the clean runs the ordering clause speaks of.
pub open spec fn entry_key(e: (ValM, ValM), key: Option<CallM>) -> ValM {
    match key {
        None => e.0,
        Some(f) => match call_spec(f, seq![e.0, e.1]) {
            Ok(k) => k,
            Err(_) => e.0,
        },
    }
}

/// Ascending by key under the built-in strict order: no entry's key stands
/// strictly below an earlier entry's key. Pairs the order cannot compare
/// satisfy this trivially, mirroring the latched-fault path that reports
/// such runs instead of sorting them.
pub open spec fn entries_ordered(entries: Seq<(ValM, ValM)>, key: Option<CallM>) -> bool {
    forall|i: int, j: int|
        0 <= i < j < entries.len() ==> bin_spec(
            Op::Less,
            entry_key(#[trigger] entries[j], key),
            entry_key(#[trigger] entries[i], key),
        ) != Ok::<ValM, Error>(ValM::Bool(true))
}

impl Dict {
    /// Sorts the data entries by their keys, or by what a key callable
    /// answers for each entry; the callable is asked at most once per
    /// entry. The first fault from the key callable - and any fault a
    /// comparison raises later - is latched and handed back in place of a
    /// sorted result, with the map left exactly as it was: never a
    /// partially-sorted container, never a panic. A clean run rearranges
    /// the entries into a permutation of themselves.
    #[verifier::loop_isolation(false)]
    pub fn sort(&mut self, key: Option<&Callable>) -> (r: Result<(), Error>)
        ensures
            ({
                let ks = sort_keys(old(self).dv().entries, opt_call_dv(key));
                match first_err_at(ks) {
                    Some(j) => r is Err && r->Err_0 == ks[j]->Err_0
                        && final(self).dv() == old(self).dv(),
                    None => match r {
                        Ok(_) => final(self).dv().meta == old(self).dv().meta
                            && final(self).dv().entries.to_multiset()
                            == old(self).dv().entries.to_multiset() && entries_ordered(
                            final(self).dv().entries,
                            opt_call_dv(key),
                        ),
                        Err(_) => final(self).dv() == old(self).dv(),
                    },
                }
            }),
    {
        broadcast use vstd::seq_lib::group_to_multiset_ensures;

        let ghost orig = self.dv().entries;
        let ghost ks = sort_keys(orig, opt_call_dv(key));
        proof {
            lemma_entry_seq_dv_len(self.entries@);
            lemma_first_err_props(ks);
        }
        let n = self.entries.len();
        let mut keys: Vec<Value> = Vec::with_capacity(n);
        let mut i: usize = 0;
        while i < n
            invariant
                i <= n,
                n == self.entries@.len(),
                keys@.len() == i,
                forall|j: int|
                    0 <= j < i ==> ks[j] == Ok::<ValM, Error>(#[trigger] keys@[j].dv()),
            decreases n - i,
        {
            proof {
                lemma_entry_seq_dv_index(self.entries@, i as int);
            }
            let kv = match key {
                None => self.entries[i].0.dup(),
                Some(f) => {
                    let mut args: Vec<Value> = Vec::new();
                    args.push(self.entries[i].0.dup());
                    args.push(self.entries[i].1.dup());
                    proof {
                        crate::value::lemma_seq_dv_index(args@, 0);
                        crate::value::lemma_seq_dv_index(args@, 1);
                        assert(crate::value::seq_dv(args@) =~= seq![
                            args@[0].dv(),
                            args@[1].dv(),
                        ]);
                    }
                    match run_callable(f, args) {
                        Ok(kv) => kv,
                        Err(e) => {
                            proof {
                                assert(ks[i as int] is Err);
                                assert(first_err_at(ks) == Some(i as int)) by {
                                    lemma_first_err_props(ks);
                                    if first_err_at(ks) is None {
                                        assert(!(ks[i as int] is Err));
                                    } else {
                                        let j = first_err_at(ks)->Some_0;
                                        if j < i {
                                            assert(ks[j] == Ok::<ValM, Error>(keys@[j].dv()));
                                        }
                                        if j > i {
                                            assert(!(ks[i as int] is Err));
                                        }
                                    }
                                }
                            }
                            return Err(e);
                        },
                    }
                },
            };
            keys.push(kv);
            i = i + 1;
        }
        proof {
            if first_err_at(ks) is Some {
                let j = first_err_at(ks)->Some_0;
                assert(ks[j] == Ok::<ValM, Error>(keys@[j].dv()));
            }
        }
        let ghost gkey = opt_call_dv(key);
        let mut scratch = dup_entries(&self.entries);
        let mut sorted_e: Vec<(Value, Value)> = Vec::new();
        let mut rounds: usize = 0;
        proof {
            lemma_entry_seq_dv_len(scratch@);
            assert(entry_seq_dv(sorted_e@) =~= Seq::<(ValM, ValM)>::empty());
            assert(entry_seq_dv(sorted_e@).to_multiset().add(
                entry_seq_dv(scratch@).to_multiset(),
            ) =~= orig.to_multiset());
            assert forall|t: int| 0 <= t < keys@.len() implies #[trigger] keys@[t].dv()
                == entry_key(entry_seq_dv(scratch@)[t], gkey) by {
                assert(ks[t] == Ok::<ValM, Error>(keys@[t].dv()));
            }
        }
        while rounds < n
            invariant
                rounds <= n,
                n == orig.len(),
                scratch@.len() == n - rounds,
                keys@.len() == n - rounds,
                entry_seq_dv(sorted_e@).len() == rounds,
                entry_seq_dv(sorted_e@).to_multiset().add(entry_seq_dv(scratch@).to_multiset())
                    == orig.to_multiset(),
                forall|t: int|
                    0 <= t < keys@.len() ==> #[trigger] keys@[t].dv() == entry_key(
                        entry_seq_dv(scratch@)[t],
                        gkey,
                    ),
                entries_ordered(entry_seq_dv(sorted_e@), gkey),
                forall|i: int, r: int|
                    0 <= i < entry_seq_dv(sorted_e@).len() && 0 <= r < entry_seq_dv(
                        scratch@,
                    ).len() ==> bin_spec(
                        Op::Less,
                        entry_key(#[trigger] entry_seq_dv(scratch@)[r], gkey),
                        entry_key(#[trigger] entry_seq_dv(sorted_e@)[i], gkey),
                    ) != Ok::<ValM, Error>(ValM::Bool(true)),
            decreases n - rounds,
        {
            let mut mi: usize = 0;
            let mut j: usize = 1;
            while j < scratch.len()
                invariant
                    scratch@.len() == n - rounds,
                    keys@.len() == n - rounds,
                    rounds < n,
                    mi < j,
                    j <= scratch@.len(),
                    forall|t: int|
                        0 <= t < j && t != mi ==> bin_spec(
                            Op::Less,
                            #[trigger] keys@[t].dv(),
                            keys@[mi as int].dv(),
                        ) != Ok::<ValM, Error>(ValM::Bool(true)),
                decreases scratch@.len() - j,
            {
                match run_binary_op(Op::Less, keys[j].dup(), keys[mi].dup()) {
                    Ok(Value::Bool(true)) => {
                        let ghost m0 = mi as int;
                        mi = j;
                        proof {
                            assert forall|t: int| 0 <= t < j + 1 && t != j implies bin_spec(
                                Op::Less,
                                #[trigger] keys@[t].dv(),
                                keys@[j as int].dv(),
                            ) != Ok::<ValM, Error>(ValM::Bool(true)) by {
                                if bin_spec(Op::Less, keys@[t].dv(), keys@[j as int].dv())
                                    == Ok::<ValM, Error>(ValM::Bool(true)) {
                                    if t == m0 {
                                        crate::ops::lemma_less_asym(
                                            keys@[j as int].dv(),
                                            keys@[m0].dv(),
                                        );
                                    } else {
                                        crate::ops::lemma_less_trans(
                                            keys@[t].dv(),
                                            keys@[j as int].dv(),
                                            keys@[m0].dv(),
                                        );
                                    }
                                }
                            }
                        }
                    },
                    Ok(Value::Bool(_)) => {},
                    Ok(_) => {
                        return Err(Error::TypeMismatch {
                            expected: Expectation::BoolFromComparison,
                            found: Kind::Bool,
                        });
                    },
                    Err(e) => {
                        return Err(e);
                    },
                }
                j = j + 1;
            }
            proof {
                lemma_entry_seq_dv_len(scratch@);
                lemma_entry_seq_dv_index(scratch@, mi as int);
            }
            let ghost pre_scratch = scratch@;
            let ghost pre_sorted = sorted_e@;
            let ghost pre_keys = keys@;
            let picked = scratch.remove(mi);
            let _ = keys.remove(mi);
            let ghost gp = picked;
            sorted_e.push(picked);
            proof {
                lemma_entry_remove(pre_scratch, mi as int);
                lemma_entry_push(pre_sorted, gp);
                let em_pre = entry_seq_dv(pre_scratch);
                let es_pre = entry_seq_dv(pre_sorted);
                let gpm = (gp.0.dv(), gp.1.dv());
                assert(entry_seq_dv(scratch@) == em_pre.remove(mi as int));
                assert(entry_seq_dv(sorted_e@) == es_pre.push(gpm));
                assert(em_pre[mi as int] == gpm) by {
                    lemma_entry_seq_dv_index(pre_scratch, mi as int);
                }
                assert(entry_seq_dv(sorted_e@).to_multiset() =~= es_pre.to_multiset().insert(
                    gpm,
                ));
                assert(entry_seq_dv(scratch@).to_multiset() =~= em_pre.to_multiset().remove(
                    gpm,
                ));
                assert(em_pre.to_multiset().count(gpm) >= 1) by {
                    assert(em_pre.contains(gpm));
                }
                assert(es_pre.to_multiset().insert(gpm).add(em_pre.to_multiset().remove(gpm))
                    =~= es_pre.to_multiset().add(em_pre.to_multiset()));
                let em_post = entry_seq_dv(scratch@);
                let es_post = entry_seq_dv(sorted_e@);
                assert forall|t: int| 0 <= t < keys@.len() implies #[trigger] keys@[t].dv()
                    == entry_key(em_post[t], gkey) by {
                    if t < mi {
                        assert(keys@[t] == pre_keys[t]);
                        assert(em_post[t] == em_pre[t]);
                    } else {
                        assert(keys@[t] == pre_keys[t + 1]);
                        assert(em_post[t] == em_pre[t + 1]);
                    }
                }
                assert(entry_key(gpm, gkey) == pre_keys[mi as int].dv());
                assert forall|a: int, b: int| 0 <= a < b < es_post.len() implies bin_spec(
                    Op::Less,
                    entry_key(#[trigger] es_post[b], gkey),
                    entry_key(#[trigger] es_post[a], gkey),
                ) != Ok::<ValM, Error>(ValM::Bool(true)) by {
                    if b < es_pre.len() {
                        assert(es_post[a] == es_pre[a]);
                        assert(es_post[b] == es_pre[b]);
                    } else {
                        assert(es_post[b] == gpm);
                        assert(es_post[a] == es_pre[a]);
                        assert(bin_spec(
                            Op::Less,
                            entry_key(em_pre[mi as int], gkey),
                            entry_key(es_pre[a], gkey),
                        ) != Ok::<ValM, Error>(ValM::Bool(true)));
                    }
                }
                assert forall|a: int, r: int|
                    0 <= a < es_post.len() && 0 <= r < em_post.len() implies bin_spec(
                    Op::Less,
                    entry_key(#[trigger] em_post[r], gkey),
                    entry_key(#[trigger] es_post[a], gkey),
                ) != Ok::<ValM, Error>(ValM::Bool(true)) by {
                    let old_r: int = if r < mi {
                        r
                    } else {
                        r + 1
                    };
                    assert(em_post[r] == em_pre[old_r]);
                    if a < es_pre.len() {
                        assert(es_post[a] == es_pre[a]);
                    } else {
                        assert(es_post[a] == gpm);
                        assert(keys@[r].dv() == pre_keys[old_r].dv());
                        assert(bin_spec(
                            Op::Less,
                            pre_keys[old_r].dv(),
                            pre_keys[mi as int].dv(),
                        ) != Ok::<ValM, Error>(ValM::Bool(true)));
                        assert(entry_key(em_pre[old_r], gkey) == pre_keys[old_r].dv());
                    }
                }
            }
            rounds = rounds + 1;
        }
        proof {
            assert(entry_seq_dv(scratch@) =~= Seq::<(ValM, ValM)>::empty());
            assert(entry_seq_dv(sorted_e@).to_multiset().add(
                Seq::<(ValM, ValM)>::empty().to_multiset(),
            ) =~= entry_seq_dv(sorted_e@).to_multiset());
        }
        self.entries = sorted_e;
        Ok(())
    }
}

} // verus!
