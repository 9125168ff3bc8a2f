use vstd::prelude::*;

use crate::callable::{call_spec, run_callable, CallM, Callable};
use crate::error::Error;
use crate::string_iters::{bytes_rest, graphemes_rest, lines_rest, split_rest, splitw_rest, Bytes, Graphemes, Lines, Split, SplitWith};
use crate::output::{collapse, collect_pair, dup_out_vec, lemma_out_seq_dv_index, lemma_out_seq_dv_len, out_seq_dv, Out, OutM};
use crate::value::{dup_vec, entry_seq_dv, lemma_entry_seq_dv_index, lemma_entry_seq_dv_len, lemma_seq_dv_index, lemma_seq_dv_len, seq_dv, ValM, Value};

verus! {

/// A handle over a producer of iteration outputs: the sources and the lazy
/// adaptors form one closed state machine. A handle that has yielded a fault
/// or run out moves to `Exhausted`.
#[derive(Debug)]
pub enum Iter {
    /// Yields nothing, forever.
    Exhausted,
    /// Index-based iteration over an ordered container; draining is allowed
    /// from both ends, and the two cursors never cross.
    OfList { items: Vec<Value>, front: usize, back: usize },
    /// Yields one value, then is exhausted.
    Once { value: Value },
    /// Yields the same value forever.
    Repeat { value: Value },
    /// Yields the same value a fixed number of times.
    RepeatN { value: Value, remaining: usize },
    /// Exhausts the first handle, then the second.
    Chain { first: Box<Iter>, second: Box<Iter> },
    /// Passes through at most `remaining` further outputs.
    TakeN { inner: Box<Iter>, remaining: usize },
    /// Index-based iteration over a map's entries, yielding paired
    /// productions; draining is allowed from both ends.
    OfMap { entries: Vec<(Value, Value)>, front: usize, back: usize },
    /// The iterability capability of a numeric object instance: counts from
    /// `cur` up to `end`, excluded, from either end.
    OfObject { cur: i64, end: i64 },
    /// The fully materialized upstream, replayed in reverse order.
    Reversed { outputs: Vec<Out> },
    /// The first half of each paired production; other outputs pass through.
    PairFirst { inner: Box<Iter> },
    /// The second half of each paired production; other outputs pass through.
    PairSecond { inner: Box<Iter> },
    /// Calls a zero-argument callable each step and yields the outcome,
    /// forever; a fault from the callable ends the stream.
    Generate { f: Callable },
    /// As `Generate`, stopping after a fixed number of calls.
    GenerateN { f: Callable, remaining: usize },
    /// Maps each upstream value through a callable, collapsing paired
    /// productions first; a fault from the callable ends the stream.
    Each { inner: Box<Iter>, f: Callable },
    /// Pairs a zero-based index with each upstream value.
    Enumerate { inner: Box<Iter>, count: i64 },
    /// Pairs the two upstreams elementwise into two-element tuples, stopping
    /// at the shorter sequence.
    Zip { left: Box<Iter>, right: Box<Iter> },
    /// The bytes of a string's UTF-8 form.
    BytesIter(Bytes),
    /// The lines of a string.
    LinesIter(Lines),
    /// The parts of a string around a literal pattern.
    SplitIter(Split),
    /// The grapheme clusters of a string.
    GraphemesIter(Graphemes),
    /// The parts of a string around predicate-accepted clusters.
    SplitWithIter(SplitWith),
    /// A materialized run of outputs, replayed in order.
    OfOuts { outs: Vec<Out>, index: usize },
    /// Buffers every output seen on the first pass and replays the buffer
    /// forever after the upstream is exhausted; a fault ends the stream.
    Cycle { inner: Box<Iter>, buffer: Vec<Out>, pos: usize, replaying: bool },
    /// Passes through upstream values while a predicate callable accepts
    /// them, ending at the first refusal.
    TakeWhile { inner: Box<Iter>, predicate: Callable },
}

/// The mathematical model of an iterator handle.
pub ghost enum IterM {
    Exhausted,
    OfList { items: Seq<ValM>, front: int, back: int },
    Once { value: ValM },
    Repeat { value: ValM },
    RepeatN { value: ValM, remaining: int },
    Chain { first: Box<IterM>, second: Box<IterM> },
    TakeN { inner: Box<IterM>, remaining: int },
    OfMap { entries: Seq<(ValM, ValM)>, front: int, back: int },
    OfObject { cur: int, end: int },
    Reversed { outputs: Seq<OutM> },
    PairFirst { inner: Box<IterM> },
    PairSecond { inner: Box<IterM> },
    Generate { f: CallM },
    GenerateN { f: CallM, remaining: int },
    Each { inner: Box<IterM>, f: CallM },
    Enumerate { inner: Box<IterM>, count: int },
    Zip { left: Box<IterM>, right: Box<IterM> },
    BytesIter { bytes: Seq<u8>, index: int },
    LinesIter { chars: Seq<char>, start: int },
    SplitIter { chars: Seq<char>, pattern: Seq<char>, start: int },
    GraphemesIter { chars: Seq<char>, pos: int },
    SplitWithIter { chars: Seq<char>, predicate: CallM, start: int },
    OfOuts { outs: Seq<OutM>, index: int },
    Cycle { inner: Box<IterM>, buffer: Seq<OutM>, pos: int, replaying: bool },
    TakeWhile { inner: Box<IterM>, predicate: CallM },
}

impl Iter {
    /// The model of this handle.
    pub open spec fn dv(self) -> IterM
        decreases self,
    {
        match self {
            Iter::Exhausted => IterM::Exhausted,
            Iter::OfList { items, front, back } => IterM::OfList {
                items: seq_dv(items@),
                front: front as int,
                back: back as int,
            },
            Iter::Once { value } => IterM::Once { value: value.dv() },
            Iter::Repeat { value } => IterM::Repeat { value: value.dv() },
            Iter::RepeatN { value, remaining } => IterM::RepeatN {
                value: value.dv(),
                remaining: remaining as int,
            },
            Iter::Chain { first, second } => IterM::Chain {
                first: Box::new(first.dv()),
                second: Box::new(second.dv()),
            },
            Iter::TakeN { inner, remaining } => IterM::TakeN {
                inner: Box::new(inner.dv()),
                remaining: remaining as int,
            },
            Iter::OfMap { entries, front, back } => IterM::OfMap {
                entries: entry_seq_dv(entries@),
                front: front as int,
                back: back as int,
            },
            Iter::OfObject { cur, end } => IterM::OfObject { cur: cur as int, end: end as int },
            Iter::Reversed { outputs } => IterM::Reversed { outputs: out_seq_dv(outputs@) },
            Iter::PairFirst { inner } => IterM::PairFirst { inner: Box::new(inner.dv()) },
            Iter::PairSecond { inner } => IterM::PairSecond { inner: Box::new(inner.dv()) },
            Iter::Generate { f } => IterM::Generate { f: f.dv() },
            Iter::GenerateN { f, remaining } => IterM::GenerateN {
                f: f.dv(),
                remaining: remaining as int,
            },
            Iter::Each { inner, f } => IterM::Each { inner: Box::new(inner.dv()), f: f.dv() },
            Iter::Enumerate { inner, count } => IterM::Enumerate {
                inner: Box::new(inner.dv()),
                count: count as int,
            },
            Iter::Zip { left, right } => IterM::Zip {
                left: Box::new(left.dv()),
                right: Box::new(right.dv()),
            },
            Iter::BytesIter(b) => IterM::BytesIter { bytes: b.bytes@, index: b.index as int },
            Iter::LinesIter(l) => IterM::LinesIter { chars: l.input@, start: l.start as int },
            Iter::SplitIter(sp) => IterM::SplitIter {
                chars: sp.input@,
                pattern: sp.pattern@,
                start: sp.start as int,
            },
            Iter::GraphemesIter(g) => IterM::GraphemesIter { chars: g.input@, pos: g.pos as int },
            Iter::SplitWithIter(sw) => IterM::SplitWithIter {
                chars: sw.input@,
                predicate: sw.predicate.dv(),
                start: sw.start as int,
            },
            Iter::OfOuts { outs, index } => IterM::OfOuts {
                outs: out_seq_dv(outs@),
                index: index as int,
            },
            Iter::Cycle { inner, buffer, pos, replaying } => IterM::Cycle {
                inner: Box::new(inner.dv()),
                buffer: out_seq_dv(buffer@),
                pos: pos as int,
                replaying: replaying,
            },
            Iter::TakeWhile { inner, predicate } => IterM::TakeWhile {
                inner: Box::new(inner.dv()),
                predicate: predicate.dv(),
            },
        }
    }
}

/// The outputs of a stream that are not faults, in order.
pub open spec fn nonerr(s: Seq<OutM>) -> Seq<OutM>
    decreases s.len(),
{
    if s.len() == 0 {
        Seq::empty()
    } else if s[0] is E {
        nonerr(s.drop_first())
    } else {
        seq![s[0]] + nonerr(s.drop_first())
    }
}

/// What a filtering adaptor produces from an upstream stream: values the
/// predicate accepts, cut short by the first fault, by a non-boolean
/// predicate answer, or - for the while-form - by the first refusal.
pub open spec fn keep_filter(f: CallM, s: Seq<OutM>, while_form: bool) -> Seq<OutM>
    decreases s.len(),
{
    if s.len() == 0 {
        Seq::empty()
    } else {
        let c = collapse(s[0]);
        match c {
            OutM::E(e) => seq![OutM::E(e)],
            _ => match call_spec(f, seq![val_of(c)]) {
                Ok(ValM::Bool(true)) => seq![s[0]] + keep_filter(f, s.drop_first(), while_form),
                Ok(ValM::Bool(false)) => if while_form {
                    Seq::empty()
                } else {
                    keep_filter(f, s.drop_first(), while_form)
                },
                Ok(other) => seq![
                    OutM::E(
                        Error::TypeMismatch {
                            expected: crate::error::Expectation::BoolFromPredicate,
                            found: crate::value::kind_of(other),
                        },
                    ),
                ],
                Err(e) => seq![OutM::E(e)],
            },
        }
    }
}

/// What one call of a zero-argument generator callable produces.
pub open spec fn gen_out(f: CallM) -> OutM {
    match call_spec(f, Seq::empty()) {
        Ok(v) => OutM::V(v),
        Err(e) => OutM::E(e),
    }
}

/// The value behind a single-value output model.
pub open spec fn val_of(o: OutM) -> ValM {
    match o {
        OutM::V(v) => v,
        _ => ValM::Null,
    }
}

/// What a mapping adaptor produces from one upstream output: faults pass
/// through, paired productions are collapsed, and the callable's own fault
/// becomes the output.
pub open spec fn each_out(f: CallM, o: OutM) -> OutM {
    match collapse(o) {
        OutM::E(e) => OutM::E(e),
        OutM::V(v) => match call_spec(f, seq![v]) {
            Ok(u) => OutM::V(u),
            Err(e) => OutM::E(e),
        },
        OutM::P(_, _) => out_default(),
    }
}

/// How many further indices an enumeration can pair before its counter
/// saturates.
pub open spec fn enum_room(count: int) -> int {
    i64::MAX - count + 1
}

/// What an enumeration produces from one upstream output.
pub open spec fn enum_out(count: int, k: int, o: OutM) -> OutM {
    match collapse(o) {
        OutM::E(e) => OutM::E(e),
        OutM::V(v) => OutM::P(ValM::Num((count + k) as i64), v),
        OutM::P(_, _) => out_default(),
    }
}

/// What a zip produces from one output of each side: the left fault wins,
/// then the right, else the two collapsed values as a tuple.
pub open spec fn zip_out(l: OutM, r: OutM) -> OutM {
    let lc = collapse(l);
    if lc is E {
        lc
    } else {
        let rc = collapse(r);
        if rc is E {
            rc
        } else {
            OutM::V(ValM::Tuple(seq![val_of(lc), val_of(rc)]))
        }
    }
}

/// The first `n` upcoming outputs of a handle, oldest first.
pub open spec fn stream_pre(it: IterM, n: int) -> Seq<OutM>
    decreases it, n,
{
    if n <= 0 {
        Seq::empty()
    } else {
        stream_pre(it, n - 1).push(it.mat(n - 1))
    }
}

/// The clamped in-range window `[lo, hi)` of an index-based source over `n`
/// items: the cursors never leave the container and never cross.
pub open spec fn clamp_range(front: int, back: int, n: int) -> (int, int) {
    let hi = if back <= n { back } else { n };
    let lo = if front <= hi { front } else { hi };
    let lo2 = if lo >= 0 { lo } else { 0 };
    let hi2 = if hi >= lo2 { hi } else { lo2 };
    (lo2, hi2)
}

/// The default output a model reports outside its range.
pub open spec fn out_default() -> OutM {
    OutM::V(ValM::Null)
}

impl IterM {
    /// How many outputs remain: `None` stands for an unbounded stream.
    pub open spec fn mlen(self) -> Option<nat>
        decreases self, 0int,
    {
        match self {
            IterM::Exhausted => Some(0nat),
            IterM::OfList { items, front, back } => {
                let hi = if back <= items.len() as int { back } else { items.len() as int };
                let lo = if front <= hi { front } else { hi };
                let lo2 = if lo >= 0 { lo } else { 0 };
                let hi2 = if hi >= lo2 { hi } else { lo2 };
                Some((hi2 - lo2) as nat)
            },
            IterM::Once { .. } => Some(1nat),
            IterM::Repeat { .. } => None,
            IterM::RepeatN { remaining, .. } => Some(if remaining >= 0 {
                remaining as nat
            } else {
                0nat
            }),
            IterM::Chain { first, second } => match first.mlen() {
                None => None,
                Some(m) => match second.mlen() {
                    None => None,
                    Some(p) => Some((m + p) as nat),
                },
            },
            IterM::TakeN { inner, remaining } => {
                let r: nat = if remaining >= 0 {
                    remaining as nat
                } else {
                    0nat
                };
                match inner.mlen() {
                    None => Some(r),
                    Some(m) => Some(if m <= r {
                        m
                    } else {
                        r
                    }),
                }
            },
            IterM::OfMap { entries, front, back } => {
                let (lo, hi) = clamp_range(front, back, entries.len() as int);
                Some((hi - lo) as nat)
            },
            IterM::OfObject { cur, end } => Some(if cur <= end {
                (end - cur) as nat
            } else {
                0nat
            }),
            IterM::Reversed { outputs } => Some(outputs.len()),
            IterM::PairFirst { inner } => inner.mlen(),
            IterM::PairSecond { inner } => inner.mlen(),
            IterM::Generate { .. } => None,
            IterM::GenerateN { remaining, .. } => Some(if remaining >= 0 {
                remaining as nat
            } else {
                0nat
            }),
            IterM::Each { inner, .. } => inner.mlen(),
            IterM::Enumerate { inner, count } => {
                let room = enum_room(count);
                if count < 0 {
                    Some(0nat)
                } else {
                    match inner.mlen() {
                        Some(m) => Some(if m <= room {
                            m
                        } else {
                            room as nat
                        }),
                        None => Some(room as nat),
                    }
                }
            },
            IterM::BytesIter { bytes, index } => Some(bytes_rest(bytes, index).len()),
            IterM::LinesIter { chars, start } => Some(lines_rest(chars, start).len()),
            IterM::SplitIter { chars, pattern, start } => if pattern.len() == 0 {
                if 0 <= start <= chars.len() {
                    None
                } else {
                    Some(0nat)
                }
            } else {
                Some(split_rest(chars, pattern, start).len())
            },
            IterM::GraphemesIter { chars, pos } => Some(graphemes_rest(chars, pos).len()),
            IterM::SplitWithIter { chars, predicate, start } => Some(
                splitw_rest(chars, predicate, start).len(),
            ),
            IterM::OfOuts { outs, index } => Some(
                if 0 <= index <= outs.len() {
                    (outs.len() - index) as nat
                } else {
                    0nat
                },
            ),
            IterM::Cycle { inner, buffer, pos, replaying } => {
                if replaying {
                    if buffer.len() == 0 {
                        Some(0nat)
                    } else {
                        None
                    }
                } else {
                    match inner.mlen() {
                        None => None,
                        Some(m) => {
                            let all = buffer + nonerr(stream_pre(*inner, m as int));
                            if all.len() == 0 {
                                Some(m)
                            } else {
                                None
                            }
                        },
                    }
                }
            },
            IterM::TakeWhile { inner, predicate } => match inner.mlen() {
                Some(m) => Some(keep_filter(predicate, stream_pre(*inner, m as int), true).len()),
                None => None,
            },
            IterM::Zip { left, right } => match (left.mlen(), right.mlen()) {
                (Some(a), Some(b)) => if b < a && collapse(left.mat(b as int)) is E {
                    Some((b + 1) as nat)
                } else {
                    Some(if a <= b {
                        a
                    } else {
                        b
                    })
                },
                (Some(a), None) => Some(a),
                (None, Some(b)) => if collapse(left.mat(b as int)) is E {
                    Some((b + 1) as nat)
                } else {
                    Some(b)
                },
                (None, None) => None,
            },
        }
    }

    /// The output this handle will produce in `k` steps from now, for `k`
    /// within the remaining length.
    pub open spec fn mat(self, k: int) -> OutM
        decreases self, 0int,
    {
        match self {
            IterM::Exhausted => out_default(),
            IterM::OfList { items, front, back } => {
                let hi = if back <= items.len() as int { back } else { items.len() as int };
                let lo = if front <= hi { front } else { hi };
                let lo2 = if lo >= 0 { lo } else { 0 };
                let hi2 = if hi >= lo2 { hi } else { lo2 };
                if 0 <= k < hi2 - lo2 {
                    OutM::V(items[lo2 + k])
                } else {
                    out_default()
                }
            },
            IterM::Once { value } => if k == 0 {
                OutM::V(value)
            } else {
                out_default()
            },
            IterM::Repeat { value } => if k >= 0 {
                OutM::V(value)
            } else {
                out_default()
            },
            IterM::RepeatN { value, remaining } => if 0 <= k < remaining {
                OutM::V(value)
            } else {
                out_default()
            },
            IterM::Chain { first, second } => match first.mlen() {
                None => first.mat(k),
                Some(m) => if k < m {
                    first.mat(k)
                } else {
                    second.mat(k - m)
                },
            },
            IterM::TakeN { inner, remaining } => if 0 <= k < remaining {
                inner.mat(k)
            } else {
                out_default()
            },
            IterM::OfMap { entries, front, back } => {
                let (lo, hi) = clamp_range(front, back, entries.len() as int);
                if 0 <= k < hi - lo {
                    OutM::P(entries[lo + k].0, entries[lo + k].1)
                } else {
                    out_default()
                }
            },
            IterM::OfObject { cur, end } => if 0 <= k < end - cur && cur + k <= i64::MAX {
                OutM::V(ValM::Num((cur + k) as i64))
            } else {
                out_default()
            },
            IterM::Reversed { outputs } => if 0 <= k < outputs.len() {
                outputs[outputs.len() - 1 - k]
            } else {
                out_default()
            },
            IterM::PairFirst { inner } => match inner.mat(k) {
                OutM::P(a, _) => OutM::V(a),
                o => o,
            },
            IterM::PairSecond { inner } => match inner.mat(k) {
                OutM::P(_, b) => OutM::V(b),
                o => o,
            },
            IterM::Generate { f } => if k >= 0 {
                gen_out(f)
            } else {
                out_default()
            },
            IterM::GenerateN { f, remaining } => if 0 <= k < remaining {
                gen_out(f)
            } else {
                out_default()
            },
            IterM::Each { inner, f } => each_out(f, inner.mat(k)),
            IterM::Enumerate { inner, count } => if 0 <= k < enum_room(count) && count >= 0 {
                enum_out(count, k, inner.mat(k))
            } else {
                out_default()
            },
            IterM::Zip { left, right } => zip_out(left.mat(k), right.mat(k)),
            IterM::BytesIter { bytes, index } => {
                let rest = bytes_rest(bytes, index);
                if 0 <= k < rest.len() {
                    rest[k]
                } else {
                    out_default()
                }
            },
            IterM::LinesIter { chars, start } => {
                let rest = lines_rest(chars, start);
                if 0 <= k < rest.len() {
                    rest[k]
                } else {
                    out_default()
                }
            },
            IterM::SplitIter { chars, pattern, start } => if pattern.len() == 0 {
                if 0 <= k && 0 <= start <= chars.len() {
                    OutM::V(ValM::Str(Seq::empty()))
                } else {
                    out_default()
                }
            } else {
                let rest = split_rest(chars, pattern, start);
                if 0 <= k < rest.len() {
                    rest[k]
                } else {
                    out_default()
                }
            },
            IterM::GraphemesIter { chars, pos } => {
                let rest = graphemes_rest(chars, pos);
                if 0 <= k < rest.len() {
                    rest[k]
                } else {
                    out_default()
                }
            },
            IterM::SplitWithIter { chars, predicate, start } => {
                let rest = splitw_rest(chars, predicate, start);
                if 0 <= k < rest.len() {
                    rest[k]
                } else {
                    out_default()
                }
            },
            IterM::OfOuts { outs, index } => if 0 <= index && 0 <= k && index + k < outs.len() {
                outs[index + k]
            } else {
                out_default()
            },
            IterM::Cycle { inner, buffer, pos, replaying } => {
                if replaying {
                    if buffer.len() == 0 || !(0 <= k) || !(0 <= pos < buffer.len()) {
                        out_default()
                    } else {
                        buffer[(pos + k) % buffer.len() as int]
                    }
                } else {
                    match inner.mlen() {
                        None => inner.mat(k),
                        Some(m) => if 0 <= k < m {
                            inner.mat(k)
                        } else {
                            let all = buffer + nonerr(stream_pre(*inner, m as int));
                            if all.len() == 0 || k < 0 {
                                out_default()
                            } else {
                                all[(k - m) % all.len() as int]
                            }
                        },
                    }
                }
            },
            IterM::TakeWhile { inner, predicate } => {
                match inner.mlen() {
                    Some(m) => {
                        let rest = keep_filter(predicate, stream_pre(*inner, m as int), true);
                        if 0 <= k < rest.len() {
                            rest[k]
                        } else {
                            out_default()
                        }
                    },
                    None => out_default(),
                }
            },
        }
    }

    /// Whether the stream model applies to this state. It fails only where a
    /// finite statement cannot exist, such as a filter over an unbounded
    /// upstream.
    pub open spec fn modeled(self) -> bool
        decreases self, 0int,
    {
        match self {
            IterM::Exhausted => true,
            IterM::OfList { .. } => true,
            IterM::Once { .. } => true,
            IterM::Repeat { .. } => true,
            IterM::RepeatN { .. } => true,
            IterM::Chain { first, second } => first.modeled() && second.modeled(),
            IterM::TakeN { inner, .. } => inner.modeled(),
            IterM::OfMap { .. } => true,
            IterM::OfObject { .. } => true,
            IterM::Reversed { .. } => true,
            IterM::PairFirst { inner } => inner.modeled(),
            IterM::PairSecond { inner } => inner.modeled(),
            IterM::Generate { .. } => true,
            IterM::GenerateN { .. } => true,
            IterM::Each { inner, .. } => inner.modeled(),
            IterM::Enumerate { inner, .. } => inner.modeled(),
            IterM::Zip { left, right } => left.modeled() && right.modeled(),
            IterM::BytesIter { .. } => true,
            IterM::LinesIter { .. } => true,
            IterM::SplitIter { chars, pattern, .. } => pattern.len() == 0 || chars.len()
                + pattern.len() < usize::MAX,
            IterM::GraphemesIter { .. } => true,
            IterM::SplitWithIter { .. } => true,
            IterM::OfOuts { .. } => true,
            IterM::Cycle { inner, buffer, pos, replaying } => inner.modeled() && (replaying
                ==> buffer.len() == 0 || 0 <= pos < buffer.len()),
            IterM::TakeWhile { inner, .. } => inner.modeled() && inner.mlen() is Some,
        }
    }

    /// The stream is finite and the model applies.
    pub open spec fn finite(self) -> bool {
        self.modeled() && self.mlen() is Some
    }

    /// The number of remaining outputs of a finite stream.
    pub open spec fn rem(self) -> nat
        recommends
            self.mlen() is Some,
    {
        self.mlen()->Some_0
    }

    /// The whole remaining stream of a finite handle.
    pub open spec fn stream(self) -> Seq<OutM>
        recommends
            self.finite(),
    {
        Seq::new(self.rem(), |k: int| self.mat(k))
    }
}

/// One output was produced: the post state's stream is the pre state's
/// shifted by one.
pub open spec fn advances_to(pre: IterM, post: IterM) -> bool {
    match pre.mlen() {
        Some(n) => n >= 1 && post.mlen() == Some((n - 1) as nat) && forall|k: int|
            0 <= k < n - 1 ==> post.mat(k) == pre.mat(k + 1),
        None => post.mlen() is None && forall|k: int|
            0 <= k ==> post.mat(k) == pre.mat(k + 1),
    }
}

/// The model of an optional output.
pub open spec fn opt_dv(o: Option<Out>) -> Option<OutM> {
    match o {
        Some(x) => Some(x.dv()),
        None => None,
    }
}

/// The uniform contract of one iteration step: on a modeled state, `None`
/// means the stream was already empty; an output equals the model's head,
/// after which the handle either holds the shifted stream or, after a fault,
/// is exhausted.
pub open spec fn step_post(pre: IterM, post: IterM, r: Option<OutM>) -> bool {
    pre.modeled() ==> post.modeled() && match r {
        None => pre.mlen() == Some(0nat) && post.mlen() == Some(0nat),
        Some(o) => pre.mlen() != Some(0nat) && o == pre.mat(0) && (o is E ==> post.mlen()
            == Some(0nat)) && (!(o is E) ==> advances_to(pre, post)),
    }
}

impl Iter {
    /// Produces the next output, mutating the handle in place.
    pub fn next(&mut self) -> (r: Option<Out>)
        ensures
            step_post(old(self).dv(), final(self).dv(), opt_dv(r)),
    {
        let mut cur = Iter::Exhausted;
        core::mem::swap(self, &mut cur);
        let (post, r) = advance(cur);
        *self = post;
        r
    }
}

/// One step of the iterator state machine, by value: each variant's step
/// stands in a function of its own.
pub fn advance(it: Iter) -> (res: (Iter, Option<Out>))
    ensures
        step_post(it.dv(), res.0.dv(), opt_dv(res.1)),
    decreases it, 1int,
{
    match &it {
        Iter::Exhausted => (Iter::Exhausted, None),
        Iter::OfList { .. } => adv_of_list(it),
        Iter::Once { .. } => adv_once(it),
        Iter::Repeat { .. } => adv_repeat(it),
        Iter::RepeatN { .. } => adv_repeat_n(it),
        Iter::Chain { .. } => adv_chain(it),
        Iter::TakeN { .. } => adv_take_n(it),
        Iter::OfMap { .. } => adv_of_map(it),
        Iter::OfObject { .. } => adv_of_object(it),
        Iter::Reversed { .. } => adv_reversed(it),
        Iter::PairFirst { .. } => adv_pair_first(it),
        Iter::PairSecond { .. } => adv_pair_second(it),
        Iter::Generate { .. } => adv_generate(it),
        Iter::GenerateN { .. } => adv_generate_n(it),
        Iter::Each { .. } => adv_each(it),
        Iter::Enumerate { .. } => adv_enumerate(it),
        Iter::Zip { .. } => adv_zip(it),
        Iter::BytesIter(..) => adv_string_src(it),
        Iter::LinesIter(..) => adv_string_src(it),
        Iter::SplitIter(..) => adv_string_src(it),
        Iter::GraphemesIter(..) => adv_string_src(it),
        Iter::SplitWithIter(..) => adv_string_src(it),
        Iter::OfOuts { .. } => adv_of_outs(it),
        Iter::Cycle { .. } => adv_cycle(it),
        Iter::TakeWhile { .. } => adv_take_while(it),
    }
}

/// One step of a string source: the struct's own `next` does the work, and
/// its sequence-shaped contract is translated to the uniform step contract.
fn adv_string_src(it: Iter) -> (res: (Iter, Option<Out>))
    requires
        it is BytesIter || it is LinesIter || it is SplitIter || it is GraphemesIter
            || it is SplitWithIter,
    ensures
        step_post(it.dv(), res.0.dv(), opt_dv(res.1)),
    decreases it, 0int,
{
    let ghost prev = it.dv();
    match it {
        Iter::BytesIter(b) => {
            let mut b = b;
            let ghost rest = bytes_rest(b.bytes@, b.index as int);
            let r = b.next();
            proof {
                if r is Some {
                    lemma_rest_shift(rest, bytes_rest(b.bytes@, b.index as int));
                }
            }
            (Iter::BytesIter(b), r)
        },
        Iter::LinesIter(l) => {
            let mut l = l;
            let ghost rest = lines_rest(l.input@, l.start as int);
            let r = l.next();
            proof {
                if r is Some {
                    lemma_rest_shift(rest, lines_rest(l.input@, l.start as int));
                }
            }
            (Iter::LinesIter(l), r)
        },
        Iter::SplitIter(sp) => {
            if sp.pattern.len() == 0 {
                if sp.start <= sp.input.len() {
                    let post = Iter::SplitIter(sp);
                    proof {
                        assert forall|k: int| 0 <= k implies post.dv().mat(k) == prev.mat(k + 1)
                            by {}
                    }
                    (post, Some(Out::Value(Value::Str(crate::value::KString::empty()))))
                } else {
                    (Iter::Exhausted, None)
                }
            } else if sp.input.len() < usize::MAX - sp.pattern.len() {
                let mut sp = sp;
                let ghost rest = split_rest(sp.input@, sp.pattern@, sp.start as int);
                let r = sp.next();
                proof {
                    if r is Some {
                        lemma_rest_shift(
                            rest,
                            split_rest(sp.input@, sp.pattern@, sp.start as int),
                        );
                    }
                }
                (Iter::SplitIter(sp), r)
            } else {
                (Iter::Exhausted, None)
            }
        },
        Iter::GraphemesIter(g) => {
            let mut g = g;
            let ghost rest = graphemes_rest(g.input@, g.pos as int);
            let r = g.next();
            proof {
                if r is Some {
                    lemma_rest_shift(rest, graphemes_rest(g.input@, g.pos as int));
                }
            }
            (Iter::GraphemesIter(g), r)
        },
        Iter::SplitWithIter(sw) => {
            let mut sw = sw;
            let ghost rest = splitw_rest(sw.input@, sw.predicate.dv(), sw.start as int);
            let r = sw.next();
            proof {
                if r is Some {
                    lemma_rest_shift(rest, splitw_rest(sw.input@, sw.predicate.dv(), sw.start as int));
                }
            }
            (Iter::SplitWithIter(sw), r)
        },
        _ => {
            proof {
                assert(false);
            }
            (Iter::Exhausted, None)
        },
    }
}

/// Dropping the head of a stream shifts every later output forward by one.
proof fn lemma_rest_shift(pre: Seq<OutM>, post: Seq<OutM>)
    requires
        pre.len() > 0,
        post == pre.drop_first(),
    ensures
        post.len() == pre.len() - 1,
        forall|k: int| 0 <= k < pre.len() - 1 ==> post[k] == pre[k + 1],
{
}

fn adv_of_list(it: Iter) -> (res: (Iter, Option<Out>))
    requires
        it is OfList,
    ensures
        step_post(it.dv(), res.0.dv(), opt_dv(res.1)),
    decreases it, 0int,
{
    let ghost prev = it.dv();
    match it {
        Iter::OfList { items, front, back } => {
            let hi = if back <= items.len() { back } else { items.len() };
            if front < hi {
                proof {
                    lemma_seq_dv_len(items@);
                    lemma_seq_dv_index(items@, front as int);
                }
                let v = items[front].dup();
                let post = Iter::OfList { items, front: front + 1, back };
                (post, Some(Out::Value(v)))
            } else {
                proof {
                    lemma_seq_dv_len(items@);
                    assert(prev.mlen() == Some(0nat));
                }
                (Iter::Exhausted, None)
            }
        },
        _ => {
            proof {
                assert(false);
            }
            (Iter::Exhausted, None)
        },
    }
}

fn adv_once(it: Iter) -> (res: (Iter, Option<Out>))
    requires
        it is Once,
    ensures
        step_post(it.dv(), res.0.dv(), opt_dv(res.1)),
    decreases it, 0int,
{
    let ghost prev = it.dv();
    match it {
        Iter::Once { value } => (Iter::Exhausted, Some(Out::Value(value))),
        _ => {
            proof {
                assert(false);
            }
            (Iter::Exhausted, None)
        },
    }
}

fn adv_repeat(it: Iter) -> (res: (Iter, Option<Out>))
    requires
        it is Repeat,
    ensures
        step_post(it.dv(), res.0.dv(), opt_dv(res.1)),
    decreases it, 0int,
{
    let ghost prev = it.dv();
    match it {
        Iter::Repeat { value } => {
            let v = value.dup();
            (Iter::Repeat { value }, Some(Out::Value(v)))
        },
        _ => {
            proof {
                assert(false);
            }
            (Iter::Exhausted, None)
        },
    }
}

fn adv_repeat_n(it: Iter) -> (res: (Iter, Option<Out>))
    requires
        it is RepeatN,
    ensures
        step_post(it.dv(), res.0.dv(), opt_dv(res.1)),
    decreases it, 0int,
{
    let ghost prev = it.dv();
    match it {
        Iter::RepeatN { value, remaining } => {
            if remaining == 0 {
                proof {
                    assert(prev.mlen() == Some(0nat));
                }
                (Iter::Exhausted, None)
            } else {
                let v = value.dup();
                (Iter::RepeatN { value, remaining: remaining - 1 }, Some(Out::Value(v)))
            }
        },
        _ => {
            proof {
                assert(false);
            }
            (Iter::Exhausted, None)
        },
    }
}

fn adv_chain(it: Iter) -> (res: (Iter, Option<Out>))
    requires
        it is Chain,
    ensures
        step_post(it.dv(), res.0.dv(), opt_dv(res.1)),
    decreases it, 0int,
{
    let ghost prev = it.dv();
    match it {
        Iter::Chain { first, second } => {
            let ghost pre = IterM::Chain {
                first: Box::new(first.dv()),
                second: Box::new(second.dv()),
            };
            let (f2, r) = advance(*first);
            match r {
                Some(o) => {
                    if is_error(&o) {
                        (Iter::Exhausted, Some(o))
                    } else {
                        let post = Iter::Chain { first: Box::new(f2), second };
                        proof {
                            if pre.modeled() {
                                lemma_chain_first_shift(pre, post.dv());
                            }
                        }
                        (post, Some(o))
                    }
                },
                None => {
                    let (s2, r2) = advance(*second);
                    match r2 {
                        Some(o) => {
                            if is_error(&o) {
                                (Iter::Exhausted, Some(o))
                            } else {
                                let post = Iter::Chain {
                                    first: Box::new(f2),
                                    second: Box::new(s2),
                                };
                                proof {
                                    if pre.modeled() {
                                        lemma_chain_second_shift(pre, post.dv());
                                    }
                                }
                                (post, Some(o))
                            }
                        },
                        None => {
                            proof {
                                if prev.modeled() {
                                    assert(prev.mlen() == Some(0nat));
                                }
                            }
                            (Iter::Exhausted, None)
                        },
                    }
                },
            }
        },
        _ => {
            proof {
                assert(false);
            }
            (Iter::Exhausted, None)
        },
    }
}

fn adv_take_n(it: Iter) -> (res: (Iter, Option<Out>))
    requires
        it is TakeN,
    ensures
        step_post(it.dv(), res.0.dv(), opt_dv(res.1)),
    decreases it, 0int,
{
    let ghost prev = it.dv();
    match it {
        Iter::TakeN { inner, remaining } => {
            if remaining == 0 {
                proof {
                    assert(prev.mlen() == Some(0nat));
                }
                (Iter::Exhausted, None)
            } else {
                let ghost pre = IterM::TakeN {
                    inner: Box::new(inner.dv()),
                    remaining: remaining as int,
                };
                let (i2, r) = advance(*inner);
                match r {
                    Some(o) => {
                        if is_error(&o) {
                            (Iter::Exhausted, Some(o))
                        } else {
                            let post = Iter::TakeN {
                                inner: Box::new(i2),
                                remaining: remaining - 1,
                            };
                            proof {
                                if pre.modeled() {
                                    lemma_take_shift(pre, post.dv());
                                }
                            }
                            (post, Some(o))
                        }
                    },
                    None => {
                        proof {
                            if prev.modeled() {
                                assert(prev.mlen() == Some(0nat));
                            }
                        }
                        (Iter::Exhausted, None)
                    },
                }
            }
        },
        _ => {
            proof {
                assert(false);
            }
            (Iter::Exhausted, None)
        },
    }
}

fn adv_of_map(it: Iter) -> (res: (Iter, Option<Out>))
    requires
        it is OfMap,
    ensures
        step_post(it.dv(), res.0.dv(), opt_dv(res.1)),
    decreases it, 0int,
{
    let ghost prev = it.dv();
    match it {
        Iter::OfMap { entries, front, back } => {
            let hi = if back <= entries.len() { back } else { entries.len() };
            if front < hi {
                proof {
                    lemma_entry_seq_dv_len(entries@);
                    lemma_entry_seq_dv_index(entries@, front as int);
                }
                let k = entries[front].0.dup();
                let v = entries[front].1.dup();
                let post = Iter::OfMap { entries, front: front + 1, back };
                (post, Some(Out::ValuePair(k, v)))
            } else {
                proof {
                    lemma_entry_seq_dv_len(entries@);
                    assert(prev.mlen() == Some(0nat));
                }
                (Iter::Exhausted, None)
            }
        },
        _ => {
            proof {
                assert(false);
            }
            (Iter::Exhausted, None)
        },
    }
}

fn adv_of_object(it: Iter) -> (res: (Iter, Option<Out>))
    requires
        it is OfObject,
    ensures
        step_post(it.dv(), res.0.dv(), opt_dv(res.1)),
    decreases it, 0int,
{
    let ghost prev = it.dv();
    match it {
        Iter::OfObject { cur, end } => {
            if cur < end {
                (Iter::OfObject { cur: cur + 1, end }, Some(Out::Value(Value::Number(cur))))
            } else {
                (Iter::Exhausted, None)
            }
        },
        _ => {
            proof {
                assert(false);
            }
            (Iter::Exhausted, None)
        },
    }
}

fn adv_reversed(it: Iter) -> (res: (Iter, Option<Out>))
    requires
        it is Reversed,
    ensures
        step_post(it.dv(), res.0.dv(), opt_dv(res.1)),
    decreases it, 0int,
{
    let ghost prev = it.dv();
    match it {
        Iter::Reversed { outputs } => {
            let mut outputs = outputs;
            let ghost outs = outputs@;
            match outputs.pop() {
                Some(o) => {
                    proof {
                        lemma_out_seq_dv_index(outs, outs.len() - 1);
                        assert(outs.drop_last() =~= outputs@);
                    }
                    if is_error(&o) {
                        (Iter::Exhausted, Some(o))
                    } else {
                        let post = Iter::Reversed { outputs };
                        proof {
                            assert forall|k: int| 0 <= k < out_seq_dv(outputs@).len() implies post
                                .dv().mat(k) == prev.mat(k + 1) by {
                                lemma_out_seq_dv_len(outs);
                                lemma_out_seq_dv_len(outputs@);
                                lemma_out_seq_dv_index(outs, outs.len() - 2 - k);
                                lemma_out_seq_dv_index(outputs@, outputs@.len() - 1 - k);
                                assert(outputs@[outputs@.len() - 1 - k] == outs[outs.len() - 2
                                    - k]);
                            }
                        }
                        (post, Some(o))
                    }
                },
                None => {
                    proof {
                        lemma_out_seq_dv_len(outs);
                    }
                    (Iter::Exhausted, None)
                },
            }
        },
        _ => {
            proof {
                assert(false);
            }
            (Iter::Exhausted, None)
        },
    }
}

fn adv_pair_first(it: Iter) -> (res: (Iter, Option<Out>))
    requires
        it is PairFirst,
    ensures
        step_post(it.dv(), res.0.dv(), opt_dv(res.1)),
    decreases it, 0int,
{
    let ghost prev = it.dv();
    match it {
        Iter::PairFirst { inner } => {
            let ghost pre = IterM::PairFirst { inner: Box::new(inner.dv()) };
            let (i2, r) = advance(*inner);
            match r {
                Some(o) => {
                    let o2 = match o {
                        Out::ValuePair(a, _) => Out::Value(a),
                        other => other,
                    };
                    if is_error(&o2) {
                        (Iter::Exhausted, Some(o2))
                    } else {
                        let post = Iter::PairFirst { inner: Box::new(i2) };
                        proof {
                            if pre.modeled() {
                                lemma_pair_shift(pre, post.dv());
                            }
                        }
                        (post, Some(o2))
                    }
                },
                None => (Iter::Exhausted, None),
            }
        },
        _ => {
            proof {
                assert(false);
            }
            (Iter::Exhausted, None)
        },
    }
}

fn adv_pair_second(it: Iter) -> (res: (Iter, Option<Out>))
    requires
        it is PairSecond,
    ensures
        step_post(it.dv(), res.0.dv(), opt_dv(res.1)),
    decreases it, 0int,
{
    let ghost prev = it.dv();
    match it {
        Iter::PairSecond { inner } => {
            let ghost pre = IterM::PairSecond { inner: Box::new(inner.dv()) };
            let (i2, r) = advance(*inner);
            match r {
                Some(o) => {
                    let o2 = match o {
                        Out::ValuePair(_, b) => Out::Value(b),
                        other => other,
                    };
                    if is_error(&o2) {
                        (Iter::Exhausted, Some(o2))
                    } else {
                        let post = Iter::PairSecond { inner: Box::new(i2) };
                        proof {
                            if pre.modeled() {
                                lemma_pair_shift(pre, post.dv());
                            }
                        }
                        (post, Some(o2))
                    }
                },
                None => (Iter::Exhausted, None),
            }
        },
        _ => {
            proof {
                assert(false);
            }
            (Iter::Exhausted, None)
        },
    }
}

fn adv_generate(it: Iter) -> (res: (Iter, Option<Out>))
    requires
        it is Generate,
    ensures
        step_post(it.dv(), res.0.dv(), opt_dv(res.1)),
    decreases it, 0int,
{
    let ghost prev = it.dv();
    match it {
        Iter::Generate { f } => {
            match run_callable(&f, Vec::new()) {
                Ok(v) => {
                    proof {
                        assert(seq_dv(Seq::<Value>::empty()) =~= Seq::<ValM>::empty());
                    }
                    let post = Iter::Generate { f };
                    proof {
                        assert forall|k: int| 0 <= k implies post.dv().mat(k) == prev.mat(k + 1)
                            by {}
                    }
                    (post, Some(Out::Value(v)))
                },
                Err(e) => {
                    proof {
                        assert(seq_dv(Seq::<Value>::empty()) =~= Seq::<ValM>::empty());
                    }
                    (Iter::Exhausted, Some(Out::Error(e)))
                },
            }
        },
        _ => {
            proof {
                assert(false);
            }
            (Iter::Exhausted, None)
        },
    }
}

fn adv_generate_n(it: Iter) -> (res: (Iter, Option<Out>))
    requires
        it is GenerateN,
    ensures
        step_post(it.dv(), res.0.dv(), opt_dv(res.1)),
    decreases it, 0int,
{
    let ghost prev = it.dv();
    match it {
        Iter::GenerateN { f, remaining } => {
            if remaining == 0 {
                (Iter::Exhausted, None)
            } else {
                match run_callable(&f, Vec::new()) {
                    Ok(v) => {
                        proof {
                            assert(seq_dv(Seq::<Value>::empty()) =~= Seq::<ValM>::empty());
                        }
                        let post = Iter::GenerateN { f, remaining: remaining - 1 };
                        proof {
                            assert forall|k: int| 0 <= k < remaining - 1 implies post.dv().mat(k)
                                == prev.mat(k + 1) by {}
                        }
                        (post, Some(Out::Value(v)))
                    },
                    Err(e) => {
                        proof {
                            assert(seq_dv(Seq::<Value>::empty()) =~= Seq::<ValM>::empty());
                        }
                        (Iter::Exhausted, Some(Out::Error(e)))
                    },
                }
            }
        },
        _ => {
            proof {
                assert(false);
            }
            (Iter::Exhausted, None)
        },
    }
}

fn adv_each(it: Iter) -> (res: (Iter, Option<Out>))
    requires
        it is Each,
    ensures
        step_post(it.dv(), res.0.dv(), opt_dv(res.1)),
    decreases it, 0int,
{
    let ghost prev = it.dv();
    match it {
        Iter::Each { inner, f } => {
            let ghost pre = IterM::Each { inner: Box::new(inner.dv()), f: f.dv() };
            let (i2, r) = advance(*inner);
            match r {
                Some(o) => {
                    if is_error(&o) {
                        let e = match o {
                            Out::Error(e) => e,
                            _ => Error::ScriptError { code: 0 },
                        };
                        (Iter::Exhausted, Some(Out::Error(e)))
                    } else {
                        let c = collect_pair(o);
                        let v = match c {
                            Out::Value(v) => v,
                            _ => Value::Null,
                        };
                        let mut args: Vec<Value> = Vec::new();
                        args.push(v);
                        proof {
                            lemma_seq_dv_index(args@, 0);
                            assert(seq_dv(args@) =~= seq![args@[0].dv()]);
                        }
                        match run_callable(&f, args) {
                            Ok(u) => {
                                let post = Iter::Each { inner: Box::new(i2), f };
                                proof {
                                    if pre.modeled() {
                                        lemma_each_shift(pre, post.dv());
                                    }
                                }
                                (post, Some(Out::Value(u)))
                            },
                            Err(e) => (Iter::Exhausted, Some(Out::Error(e))),
                        }
                    }
                },
                None => (Iter::Exhausted, None),
            }
        },
        _ => {
            proof {
                assert(false);
            }
            (Iter::Exhausted, None)
        },
    }
}

fn adv_enumerate(it: Iter) -> (res: (Iter, Option<Out>))
    requires
        it is Enumerate,
    ensures
        step_post(it.dv(), res.0.dv(), opt_dv(res.1)),
    decreases it, 0int,
{
    let ghost prev = it.dv();
    match it {
        Iter::Enumerate { inner, count } => {
            let ghost pre = IterM::Enumerate { inner: Box::new(inner.dv()), count: count as int };
            if count < 0 {
                (Iter::Exhausted, None)
            } else {
                let (i2, r) = advance(*inner);
                match r {
                    Some(o) => {
                        if is_error(&o) {
                            let e = match o {
                                Out::Error(e) => e,
                                _ => Error::ScriptError { code: 0 },
                            };
                            (Iter::Exhausted, Some(Out::Error(e)))
                        } else {
                            let c = collect_pair(o);
                            let v = match c {
                                Out::Value(v) => v,
                                _ => Value::Null,
                            };
                            let out = Out::ValuePair(Value::Number(count), v);
                            if count == i64::MAX {
                                (Iter::Exhausted, Some(out))
                            } else {
                                let post = Iter::Enumerate {
                                    inner: Box::new(i2),
                                    count: count + 1,
                                };
                                proof {
                                    if pre.modeled() {
                                        lemma_enum_shift(pre, post.dv());
                                    }
                                }
                                (post, Some(out))
                            }
                        }
                    },
                    None => (Iter::Exhausted, None),
                }
            }
        },
        _ => {
            proof {
                assert(false);
            }
            (Iter::Exhausted, None)
        },
    }
}

fn adv_zip(it: Iter) -> (res: (Iter, Option<Out>))
    requires
        it is Zip,
    ensures
        step_post(it.dv(), res.0.dv(), opt_dv(res.1)),
    decreases it, 0int,
{
    let ghost prev = it.dv();
    match it {
        Iter::Zip { left, right } => {
            let ghost pre = IterM::Zip {
                left: Box::new(left.dv()),
                right: Box::new(right.dv()),
            };
            let (l2, lr) = advance(*left);
            match lr {
                None => (Iter::Exhausted, None),
                Some(lo) => {
                    if is_error(&lo) {
                        let e = match lo {
                            Out::Error(e) => e,
                            _ => Error::ScriptError { code: 0 },
                        };
                        (Iter::Exhausted, Some(Out::Error(e)))
                    } else {
                        let lc = collect_pair(lo);
                        let lv = match lc {
                            Out::Value(v) => v,
                            _ => Value::Null,
                        };
                        let (r2, rr) = advance(*right);
                        match rr {
                            None => (Iter::Exhausted, None),
                            Some(ro) => {
                                if is_error(&ro) {
                                    let e = match ro {
                                        Out::Error(e) => e,
                                        _ => Error::ScriptError { code: 0 },
                                    };
                                    (Iter::Exhausted, Some(Out::Error(e)))
                                } else {
                                    let rc = collect_pair(ro);
                                    let rv = match rc {
                                        Out::Value(v) => v,
                                        _ => Value::Null,
                                    };
                                    let mut pair: Vec<Value> = Vec::new();
                                    pair.push(lv);
                                    pair.push(rv);
                                    proof {
                                        lemma_seq_dv_index(pair@, 0);
                                        lemma_seq_dv_index(pair@, 1);
                                        assert(seq_dv(pair@) =~= seq![
                                            pair@[0].dv(),
                                            pair@[1].dv(),
                                        ]);
                                    }
                                    let out = Out::Value(Value::Tuple(pair));
                                    let post = Iter::Zip {
                                        left: Box::new(l2),
                                        right: Box::new(r2),
                                    };
                                    proof {
                                        if pre.modeled() {
                                            lemma_zip_shift(pre, post.dv());
                                        }
                                    }
                                    (post, Some(out))
                                }
                            },
                        }
                    }
                },
            }
        },
        _ => {
            proof {
                assert(false);
            }
            (Iter::Exhausted, None)
        },
    }
}


/// `stream_pre` lists exactly the first `n` outputs.
pub proof fn lemma_stream_pre(it: IterM, n: int)
    requires
        0 <= n,
    ensures
        stream_pre(it, n).len() == n,
        forall|j: int| 0 <= j < n ==> stream_pre(it, n)[j] == it.mat(j),
    decreases n,
{
    if n > 0 {
        lemma_stream_pre(it, n - 1);
    }
}

/// Advancing the upstream by one non-fault step drops the head of its
/// listed outputs.
pub proof fn lemma_stream_pre_shift(i: IterM, i2: IterM, m: int)
    requires
        m >= 1,
        i.mlen() == Some(m as nat),
        advances_to(i, i2),
    ensures
        stream_pre(i2, m - 1) == stream_pre(i, m).drop_first(),
{
    lemma_stream_pre(i, m);
    lemma_stream_pre(i2, m - 1);
    assert forall|k: int| 0 <= k < m - 1 implies stream_pre(i2, m - 1)[k] == stream_pre(
        i,
        m,
    ).drop_first()[k] by {
        assert(i2.mat(k) == i.mat(k + 1));
    }
    assert(stream_pre(i2, m - 1) =~= stream_pre(i, m).drop_first());
}

fn adv_take_while(it: Iter) -> (res: (Iter, Option<Out>))
    requires
        it is TakeWhile,
    ensures
        step_post(it.dv(), res.0.dv(), opt_dv(res.1)),
    decreases it, 0int,
{
    let ghost prev = it.dv();
    match it {
        Iter::TakeWhile { inner, predicate } => {
            let ghost i = inner.dv();
            let ghost f = predicate.dv();
            let (i2, r) = advance(*inner);
            match r {
                None => {
                    proof {
                        if prev.modeled() {
                            lemma_stream_pre(i, i.rem() as int);
                            assert(stream_pre(i, i.rem() as int) =~= Seq::<OutM>::empty());
                        }
                    }
                    (Iter::Exhausted, None)
                },
                Some(o) => {
                    proof {
                        if prev.modeled() {
                            lemma_stream_pre(i, i.rem() as int);
                        }
                    }
                    if is_error(&o) {
                        (Iter::Exhausted, Some(o))
                    } else {
                        let oc = collect_pair(o.dup());
                        let v = match oc {
                            Out::Value(v) => v,
                            _ => Value::Null,
                        };
                        let mut args: Vec<Value> = Vec::new();
                        args.push(v);
                        proof {
                            lemma_seq_dv_index(args@, 0);
                            assert(seq_dv(args@) =~= seq![args@[0].dv()]);
                        }
                        match run_callable(&predicate, args) {
                            Ok(Value::Bool(true)) => {
                                let post = Iter::TakeWhile {
                                    inner: Box::new(i2),
                                    predicate,
                                };
                                proof {
                                    if prev.modeled() {
                                        lemma_stream_pre_shift(i, i2.dv(), i.rem() as int);
                                        lemma_filter_head_true(
                                            f,
                                            stream_pre(i, i.rem() as int),
                                            true,
                                        );
                                    }
                                }
                                (post, Some(o))
                            },
                            Ok(Value::Bool(false)) => (Iter::Exhausted, None),
                            Ok(other) => {
                                let e = Error::TypeMismatch {
                                    expected: crate::error::Expectation::BoolFromPredicate,
                                    found: other.kind(),
                                };
                                (Iter::Exhausted, Some(Out::Error(e)))
                            },
                            Err(e) => (Iter::Exhausted, Some(Out::Error(e))),
                        }
                    }
                },
            }
        },
        _ => {
            proof {
                assert(false);
            }
            (Iter::Exhausted, None)
        },
    }
}

/// A kept head stands first in the filtered stream, followed by the filter
/// of the rest.
pub proof fn lemma_filter_head_true(f: CallM, s: Seq<OutM>, while_form: bool)
    requires
        s.len() >= 1,
        !(collapse(s[0]) is E),
        call_spec(f, seq![val_of(collapse(s[0]))]) == Ok::<ValM, Error>(ValM::Bool(true)),
    ensures
        keep_filter(f, s, while_form) == seq![s[0]] + keep_filter(
            f,
            s.drop_first(),
            while_form,
        ),
{
}

/// A refused head of the keep-form contributes nothing.
pub proof fn lemma_filter_head_false(f: CallM, s: Seq<OutM>)
    requires
        s.len() >= 1,
        !(collapse(s[0]) is E),
        call_spec(f, seq![val_of(collapse(s[0]))]) == Ok::<ValM, Error>(ValM::Bool(false)),
    ensures
        keep_filter(f, s, false) == keep_filter(f, s.drop_first(), false),
{
}


fn adv_of_outs(it: Iter) -> (res: (Iter, Option<Out>))
    requires
        it is OfOuts,
    ensures
        step_post(it.dv(), res.0.dv(), opt_dv(res.1)),
    decreases it, 0int,
{
    let ghost prev = it.dv();
    match it {
        Iter::OfOuts { outs, index } => {
            proof {
                lemma_out_seq_dv_len(outs@);
            }
            if index < outs.len() {
                proof {
                    lemma_out_seq_dv_index(outs@, index as int);
                }
                let o = outs[index].dup();
                if is_error(&o) {
                    (Iter::Exhausted, Some(o))
                } else {
                    let post = Iter::OfOuts { outs, index: index + 1 };
                    proof {
                        assert forall|k: int|
                            0 <= k < post.dv().mlen()->Some_0 implies post.dv().mat(k) == prev.mat(
                            k + 1,
                        ) by {
                            lemma_out_seq_dv_index(outs@, index + 1 + k);
                        }
                    }
                    (post, Some(o))
                }
            } else {
                (Iter::Exhausted, None)
            }
        },
        _ => {
            proof {
                assert(false);
            }
            (Iter::Exhausted, None)
        },
    }
}

/// A small non-negative number is its own remainder.
proof fn lemma_small_mod_int(x: int, m: int)
    requires
        0 <= x < m,
    ensures
        x % m == x,
{
    vstd::arithmetic::div_mod::lemma_small_mod(x as nat, m as nat);
}

/// A number divides itself without remainder.
proof fn lemma_mod_self_int(m: int)
    requires
        m > 0,
    ensures
        m % m == 0,
{
    vstd::arithmetic::div_mod::lemma_mod_self_0(m);
}

/// A non-fault output appended to the cycle's buffer leaves the combined
/// replay material unchanged.
proof fn lemma_cycle_material(buffer: Seq<OutM>, o: OutM, i: IterM, i2: IterM, m: int)
    requires
        m >= 1,
        i.mlen() == Some(m as nat),
        advances_to(i, i2),
        i.mat(0) == o,
        !(o is E),
    ensures
        buffer.push(o) + nonerr(stream_pre(i2, m - 1)) == buffer + nonerr(stream_pre(i, m)),
{
    lemma_stream_pre_shift(i, i2, m);
    lemma_stream_pre(i, m);
    assert(stream_pre(i, m)[0] == o);
    assert(stream_pre(i, m).drop_first() == stream_pre(i2, m - 1));
    assert(nonerr(stream_pre(i, m)) == seq![o] + nonerr(stream_pre(i2, m - 1)));
    assert(buffer.push(o) + nonerr(stream_pre(i2, m - 1)) =~= buffer + nonerr(stream_pre(i, m)));
}

/// In the first pass over an exhausted upstream, the cycle's output at a
/// position is the buffered output at that position modulo the buffer.
proof fn lemma_cycle_start_mat(pre: IterM, k: int)
    requires
        pre is Cycle,
        !pre->Cycle_replaying,
        pre->Cycle_inner.mlen() == Some(0nat),
        pre->Cycle_buffer.len() > 0,
        0 <= k,
    ensures
        pre.mat(k) == pre->Cycle_buffer[k % pre->Cycle_buffer.len() as int],
        pre.mlen() is None,
{
    let buffer = pre->Cycle_buffer;
    let i = *pre->Cycle_inner;
    lemma_stream_pre(i, 0);
    assert(stream_pre(i, 0) =~= Seq::<OutM>::empty());
    assert(buffer + nonerr(Seq::<OutM>::empty()) =~= buffer);
}

/// A stream with a non-fault head keeps at least one output after the
/// faults are dropped.
proof fn lemma_nonerr_head(s: Seq<OutM>)
    requires
        s.len() >= 1,
        !(s[0] is E),
    ensures
        nonerr(s).len() >= 1,
{
}

#[verifier::rlimit(80)]
fn adv_cycle(it: Iter) -> (res: (Iter, Option<Out>))
    requires
        it is Cycle,
    ensures
        step_post(it.dv(), res.0.dv(), opt_dv(res.1)),
    decreases it, 0int,
{
    let ghost prev = it.dv();
    match it {
        Iter::Cycle { inner, buffer, pos, replaying } => {
            proof {
                lemma_out_seq_dv_len(buffer@);
            }
            if replaying {
                if buffer.len() == 0 || pos >= buffer.len() {
                    (Iter::Exhausted, None)
                } else {
                    proof {
                        lemma_out_seq_dv_index(buffer@, pos as int);
                        lemma_small_mod_int(pos as int, out_seq_dv(buffer@).len() as int);
                    }
                    let o = buffer[pos].dup();
                    if is_error(&o) {
                        (Iter::Exhausted, Some(o))
                    } else {
                        let npos: usize = if pos + 1 < buffer.len() {
                            pos + 1
                        } else {
                            0
                        };
                        let ghost blen = out_seq_dv(buffer@).len() as int;
                        let post = Iter::Cycle { inner, buffer, pos: npos, replaying: true };
                        proof {
                            assert forall|k: int| 0 <= k implies post.dv().mat(k) == prev.mat(
                                k + 1,
                            ) by {
                                if npos == 0 {
                                    vstd::arithmetic::div_mod::lemma_mod_add_multiples_vanish(
                                        k,
                                        blen,
                                    );
                                }
                            }
                        }
                        (post, Some(o))
                    }
                }
            } else {
                let ghost i = inner.dv();
                let (i2, r) = advance(*inner);
                match r {
                    Some(o) => {
                        if is_error(&o) {
                            (Iter::Exhausted, Some(o))
                        } else {
                            let mut buffer = buffer;
                            let ghost bufm = out_seq_dv(buffer@);
                            let od = o.dup();
                            let ghost pre_buf = buffer@;
                            buffer.push(od);
                            let post = Iter::Cycle {
                                inner: Box::new(i2),
                                buffer,
                                pos,
                                replaying: false,
                            };
                            proof {
                                if prev.modeled() {
                                    assert(buffer@.drop_last() =~= pre_buf);
                                    assert(out_seq_dv(buffer@) =~= bufm.push(o.dv()));
                                    match i.mlen() {
                                        None => {
                                            assert forall|k: int| 0 <= k implies post.dv().mat(k)
                                                == prev.mat(k + 1) by {
                                                assert(i2.dv().mat(k) == i.mat(k + 1));
                                            }
                                        },
                                        Some(m) => {
                                            lemma_cycle_material(bufm, o.dv(), i, i2.dv(), m as int);
                                            lemma_cycle_shift(prev, post.dv());
                                        },
                                    }
                                }
                            }
                            (post, Some(o))
                        }
                    },
                    None => {
                        if buffer.len() == 0 {
                            proof {
                                if prev.modeled() {
                                    lemma_stream_pre(i, 0);
                                    assert(stream_pre(i, 0) =~= Seq::<OutM>::empty());
                                    assert(out_seq_dv(buffer@) + nonerr(Seq::<OutM>::empty())
                                        =~= Seq::<OutM>::empty());
                                }
                            }
                            (Iter::Exhausted, None)
                        } else {
                            proof {
                                lemma_out_seq_dv_index(buffer@, 0);
                                if prev.modeled() {
                                    lemma_cycle_start_mat(prev, 0);
                                    lemma_small_mod_int(0, out_seq_dv(buffer@).len() as int);
                                }
                            }
                            let o = buffer[0].dup();
                            if is_error(&o) {
                                (Iter::Exhausted, Some(o))
                            } else {
                                let npos: usize = if 1 < buffer.len() {
                                    1
                                } else {
                                    0
                                };
                                let post = Iter::Cycle {
                                    inner: Box::new(i2),
                                    buffer,
                                    pos: npos,
                                    replaying: true,
                                };
                                proof {
                                    if prev.modeled() {
                                        let l = post.dv()->Cycle_buffer.len() as int;
                                        assert forall|k: int| 0 <= k implies post.dv().mat(k)
                                            == prev.mat(k + 1) by {
                                            lemma_cycle_start_mat(prev, k + 1);
                                            if l == 1 {
                                                vstd::arithmetic::div_mod::lemma_mod_add_multiples_vanish(
                                                    k,
                                                    l,
                                                );
                                            }
                                        }
                                    }
                                }
                                (post, Some(o))
                            }
                        }
                    },
                }
            }
        },
        _ => {
            proof {
                assert(false);
            }
            (Iter::Exhausted, None)
        },
    }
}

/// After a first-pass non-fault step whose output joined the buffer, the
/// cycle's stream shifts by one.
proof fn lemma_cycle_shift(pre: IterM, post: IterM)
    requires
        pre is Cycle,
        post is Cycle,
        !pre->Cycle_replaying,
        !post->Cycle_replaying,
        post->Cycle_pos == pre->Cycle_pos,
        pre->Cycle_inner.modeled(),
        pre->Cycle_inner.mlen() is Some,
        pre->Cycle_inner.rem() >= 1,
        post->Cycle_inner.mlen() == Some((pre->Cycle_inner.rem() - 1) as nat),
        advances_to(*pre->Cycle_inner, *post->Cycle_inner),
        post->Cycle_buffer + nonerr(
            stream_pre(*post->Cycle_inner, post->Cycle_inner.rem() as int),
        ) == pre->Cycle_buffer + nonerr(
            stream_pre(*pre->Cycle_inner, pre->Cycle_inner.rem() as int),
        ),
        !(pre->Cycle_inner.mat(0) is E),
    ensures
        advances_to(pre, post),
{
    let i = *pre->Cycle_inner;
    let i2 = *post->Cycle_inner;
    let m = i.rem() as int;
    let all = pre->Cycle_buffer + nonerr(stream_pre(i, m));
    lemma_stream_pre(i, m);
    assert(all.len() >= 1) by {
        assert(stream_pre(i, m)[0] == i.mat(0));
        lemma_nonerr_head(stream_pre(i, m));
    }
    assert(pre.mlen() is None);
    assert(post.mlen() is None);
    assert forall|k: int| 0 <= k implies post.mat(k) == pre.mat(k + 1) by {
        if k + 1 < m {
            assert(i2.mat(k) == i.mat(k + 1));
        }
    }
}

/// After the upstream of a mapping adaptor takes a non-fault step, the
/// adaptor's stream shifts by one.
proof fn lemma_each_shift(pre: IterM, post: IterM)
    requires
        pre is Each,
        post is Each,
        post->Each_f == pre->Each_f,
        advances_to(*pre->Each_inner, *post->Each_inner),
    ensures
        advances_to(pre, post),
{
    let i = *pre->Each_inner;
    let i2 = *post->Each_inner;
    match i.mlen() {
        None => {
            assert forall|k: int| 0 <= k implies post.mat(k) == pre.mat(k + 1) by {
                assert(i2.mat(k) == i.mat(k + 1));
            }
        },
        Some(m) => {
            assert forall|k: int| 0 <= k < m - 1 implies post.mat(k) == pre.mat(k + 1) by {
                assert(i2.mat(k) == i.mat(k + 1));
            }
        },
    }
}

/// After the upstream of an enumeration takes a non-fault step and the
/// counter moves up, the enumeration's stream shifts by one.
proof fn lemma_enum_shift(pre: IterM, post: IterM)
    requires
        pre is Enumerate,
        post is Enumerate,
        0 <= pre->Enumerate_count < i64::MAX,
        post->Enumerate_count == pre->Enumerate_count + 1,
        advances_to(*pre->Enumerate_inner, *post->Enumerate_inner),
    ensures
        advances_to(pre, post),
{
    let i = *pre->Enumerate_inner;
    let i2 = *post->Enumerate_inner;
    let c = pre->Enumerate_count;
    match pre.mlen() {
        Some(n) => {
            assert forall|k: int| 0 <= k < n - 1 implies post.mat(k) == pre.mat(k + 1) by {
                match i.mlen() {
                    None => {
                        assert(i2.mat(k) == i.mat(k + 1));
                    },
                    Some(m) => {
                        if k < m - 1 {
                            assert(i2.mat(k) == i.mat(k + 1));
                        }
                    },
                }
                assert(enum_out(c + 1, k, i2.mat(k)) == enum_out(c, k + 1, i.mat(k + 1)));
            }
        },
        None => {},
    }
}

/// After both upstreams of a zip take non-fault steps, the zip's stream
/// shifts by one.
proof fn lemma_zip_shift(pre: IterM, post: IterM)
    requires
        pre is Zip,
        post is Zip,
        advances_to(*pre->Zip_left, *post->Zip_left),
        advances_to(*pre->Zip_right, *post->Zip_right),
    ensures
        advances_to(pre, post),
{
    let l = *pre->Zip_left;
    let r = *pre->Zip_right;
    let l2 = *post->Zip_left;
    let r2 = *post->Zip_right;
    match (l.mlen(), r.mlen()) {
        (Some(a), Some(b)) => {
            if b < a {
                assert(l2.mat(b - 1) == l.mat(b as int));
            }
        },
        (Some(a), None) => {},
        (None, Some(b)) => {
            assert(l2.mat(b - 1) == l.mat(b as int));
        },
        (None, None) => {},
    }
    match pre.mlen() {
        Some(n) => {
            assert forall|k: int| 0 <= k < n - 1 implies post.mat(k) == pre.mat(k + 1) by {
                if l.mlen() is Some && k < l.mlen()->Some_0 - 1 || l.mlen() is None {
                    assert(l2.mat(k) == l.mat(k + 1));
                }
                if r.mlen() is Some && k < r.mlen()->Some_0 - 1 || r.mlen() is None {
                    assert(r2.mat(k) == r.mat(k + 1));
                }
            }
        },
        None => {
            assert forall|k: int| 0 <= k implies post.mat(k) == pre.mat(k + 1) by {
                assert(l2.mat(k) == l.mat(k + 1));
                assert(r2.mat(k) == r.mat(k + 1));
            }
        },
    }
}

/// After the inner handle of a pair selector takes a non-fault step, the
/// selector's stream shifts by one.
proof fn lemma_pair_shift(pre: IterM, post: IterM)
    requires
        pre is PairFirst || pre is PairSecond,
        pre is PairFirst ==> post is PairFirst && advances_to(
            *pre->PairFirst_inner,
            *post->PairFirst_inner,
        ),
        pre is PairSecond ==> post is PairSecond && advances_to(
            *pre->PairSecond_inner,
            *post->PairSecond_inner,
        ),
    ensures
        advances_to(pre, post),
{
    let i = if pre is PairFirst {
        *pre->PairFirst_inner
    } else {
        *pre->PairSecond_inner
    };
    let i2 = if pre is PairFirst {
        *post->PairFirst_inner
    } else {
        *post->PairSecond_inner
    };
    match i.mlen() {
        None => {
            assert forall|k: int| 0 <= k implies post.mat(k) == pre.mat(k + 1) by {
                assert(i2.mat(k) == i.mat(k + 1));
            }
        },
        Some(m) => {
            assert forall|k: int| 0 <= k < m - 1 implies post.mat(k) == pre.mat(k + 1) by {
                assert(i2.mat(k) == i.mat(k + 1));
            }
        },
    }
}

/// Whether an output is a terminal fault.
pub fn is_error(o: &Out) -> (r: bool)
    ensures
        r == (o.dv() is E),
{
    match o {
        Out::Error(_) => true,
        _ => false,
    }
}

/// After the first handle of a chain takes a non-fault step, the chain's
/// stream shifts by one.
proof fn lemma_chain_first_shift(pre: IterM, post: IterM)
    requires
        pre is Chain,
        post is Chain,
        post->Chain_second == pre->Chain_second,
        advances_to(*pre->Chain_first, *post->Chain_first),
    ensures
        advances_to(pre, post),
{
    let f = *pre->Chain_first;
    let f2 = *post->Chain_first;
    let s = *pre->Chain_second;
    match f.mlen() {
        None => {
            assert forall|k: int| 0 <= k implies post.mat(k) == pre.mat(k + 1) by {
                assert(f2.mat(k) == f.mat(k + 1));
            }
        },
        Some(m) => {
            match s.mlen() {
                None => {
                    assert forall|k: int| 0 <= k implies post.mat(k) == pre.mat(k + 1) by {
                        if k < m - 1 {
                            assert(f2.mat(k) == f.mat(k + 1));
                        }
                    }
                },
                Some(p) => {
                    assert forall|k: int| 0 <= k < m + p - 1 implies post.mat(k) == pre.mat(
                        k + 1,
                    ) by {
                        if k < m - 1 {
                            assert(f2.mat(k) == f.mat(k + 1));
                        }
                    }
                },
            }
        },
    }
}

/// After the first handle of a chain is exhausted and the second takes a
/// non-fault step, the chain's stream shifts by one.
proof fn lemma_chain_second_shift(pre: IterM, post: IterM)
    requires
        pre is Chain,
        post is Chain,
        pre->Chain_first.mlen() == Some(0nat),
        post->Chain_first.mlen() == Some(0nat),
        advances_to(*pre->Chain_second, *post->Chain_second),
    ensures
        advances_to(pre, post),
{
    let s = *pre->Chain_second;
    let s2 = *post->Chain_second;
    match s.mlen() {
        None => {
            assert forall|k: int| 0 <= k implies post.mat(k) == pre.mat(k + 1) by {
                assert(s2.mat(k) == s.mat(k + 1));
            }
        },
        Some(p) => {
            assert forall|k: int| 0 <= k < p - 1 implies post.mat(k) == pre.mat(k + 1) by {
                assert(s2.mat(k) == s.mat(k + 1));
            }
        },
    }
}

/// After the inner handle of a take takes a non-fault step, the take's
/// stream shifts by one.
proof fn lemma_take_shift(pre: IterM, post: IterM)
    requires
        pre is TakeN,
        post is TakeN,
        pre->TakeN_remaining >= 1,
        post->TakeN_remaining == pre->TakeN_remaining - 1,
        advances_to(*pre->TakeN_inner, *post->TakeN_inner),
    ensures
        advances_to(pre, post),
{
    let i = *pre->TakeN_inner;
    let i2 = *post->TakeN_inner;
    let rm = pre->TakeN_remaining;
    match i.mlen() {
        None => {
            assert forall|k: int| 0 <= k < rm - 1 implies post.mat(k) == pre.mat(k + 1) by {
                assert(i2.mat(k) == i.mat(k + 1));
            }
        },
        Some(m) => {
            assert forall|k: int| 0 <= k < (if m as int <= rm { m as int } else { rm }) - 1
                implies post.mat(k) == pre.mat(k + 1) by {
                if k < m - 1 {
                    assert(i2.mat(k) == i.mat(k + 1));
                }
            }
        },
    }
}

impl Iter {
    /// An independent cursor over the same logical sequence: the copy's
    /// model equals this handle's model.
    #[verifier::loop_isolation(false)]
    pub fn make_copy(&self) -> (r: Iter)
        ensures
            r.dv() == self.dv(),
        decreases self,
    {
        match self {
            Iter::Exhausted => Iter::Exhausted,
            Iter::OfList { items, front, back } => Iter::OfList {
                items: crate::value::dup_vec(items),
                front: *front,
                back: *back,
            },
            Iter::Once { value } => Iter::Once { value: value.dup() },
            Iter::Repeat { value } => Iter::Repeat { value: value.dup() },
            Iter::RepeatN { value, remaining } => Iter::RepeatN {
                value: value.dup(),
                remaining: *remaining,
            },
            Iter::Chain { first, second } => Iter::Chain {
                first: Box::new(first.make_copy()),
                second: Box::new(second.make_copy()),
            },
            Iter::TakeN { inner, remaining } => Iter::TakeN {
                inner: Box::new(inner.make_copy()),
                remaining: *remaining,
            },
            Iter::OfMap { entries, front, back } => {
                let mut es: Vec<(Value, Value)> = Vec::new();
                let mut i: usize = 0;
                while i < entries.len()
                    invariant
                        i <= entries.len(),
                        entry_seq_dv(es@) == entry_seq_dv(entries@.subrange(0, i as int)),
                    decreases entries.len() - i,
                {
                    let ghost pre = es@;
                    let k = entries[i].0.dup();
                    let v = entries[i].1.dup();
                    es.push((k, v));
                    proof {
                        assert(es@.drop_last() =~= pre);
                        lemma_entry_seq_dv_index(entries@, i as int);
                        assert(entries@.subrange(0, i + 1).drop_last() =~= entries@.subrange(
                            0,
                            i as int,
                        ));
                        assert(entries@.subrange(0, i + 1).last() == entries@[i as int]);
                    }
                    i = i + 1;
                }
                proof {
                    assert(entries@.subrange(0, entries@.len() as int) =~= entries@);
                }
                Iter::OfMap { entries: es, front: *front, back: *back }
            },
            Iter::OfObject { cur, end } => Iter::OfObject { cur: *cur, end: *end },
            Iter::Reversed { outputs } => Iter::Reversed { outputs: dup_out_vec(outputs) },
            Iter::PairFirst { inner } => Iter::PairFirst { inner: Box::new(inner.make_copy()) },
            Iter::PairSecond { inner } => Iter::PairSecond {
                inner: Box::new(inner.make_copy()),
            },
            Iter::Generate { f } => Iter::Generate { f: f.dup() },
            Iter::GenerateN { f, remaining } => Iter::GenerateN {
                f: f.dup(),
                remaining: *remaining,
            },
            Iter::Each { inner, f } => Iter::Each {
                inner: Box::new(inner.make_copy()),
                f: f.dup(),
            },
            Iter::Enumerate { inner, count } => Iter::Enumerate {
                inner: Box::new(inner.make_copy()),
                count: *count,
            },
            Iter::Zip { left, right } => Iter::Zip {
                left: Box::new(left.make_copy()),
                right: Box::new(right.make_copy()),
            },
            Iter::BytesIter(b) => Iter::BytesIter(b.make_copy()),
            Iter::LinesIter(l) => Iter::LinesIter(l.make_copy()),
            Iter::SplitIter(sp) => Iter::SplitIter(sp.make_copy()),
            Iter::GraphemesIter(g) => Iter::GraphemesIter(g.make_copy()),
            Iter::SplitWithIter(sw) => Iter::SplitWithIter(sw.make_copy()),
            Iter::OfOuts { outs, index } => Iter::OfOuts {
                outs: dup_out_vec(outs),
                index: *index,
            },
            Iter::Cycle { inner, buffer, pos, replaying } => Iter::Cycle {
                inner: Box::new(inner.make_copy()),
                buffer: dup_out_vec(buffer),
                pos: *pos,
                replaying: *replaying,
            },
            Iter::TakeWhile { inner, predicate } => Iter::TakeWhile {
                inner: Box::new(inner.make_copy()),
                predicate: predicate.dup(),
            },
        }
    }
}

impl Iter {
    /// A lower bound and an optional upper bound on the remaining outputs:
    /// the lower bound never overstates what a finite modeled stream holds.
    pub fn size_hint(&self) -> (r: (usize, Option<usize>))
        ensures
            self.dv().finite() ==> r.0 <= self.dv().rem(),
        decreases self,
    {
        match self {
            Iter::Exhausted => (0, Some(0)),
            Iter::OfList { items, front, back } => {
                let hi = if *back <= items.len() {
                    *back
                } else {
                    items.len()
                };
                let n = if *front < hi {
                    hi - *front
                } else {
                    0
                };
                proof {
                    lemma_seq_dv_len(items@);
                }
                (n, Some(n))
            },
            Iter::Once { .. } => (1, Some(1)),
            Iter::Repeat { .. } => (usize::MAX, None),
            Iter::RepeatN { remaining, .. } => (*remaining, Some(*remaining)),
            Iter::Chain { first, second } => {
                let (a, _) = first.size_hint();
                let (b, _) = second.size_hint();
                let low = if a <= usize::MAX - b {
                    a + b
                } else {
                    usize::MAX
                };
                (low, None)
            },
            Iter::TakeN { inner, remaining } => {
                let (a, _) = inner.size_hint();
                (if a <= *remaining {
                    a
                } else {
                    *remaining
                }, Some(*remaining))
            },
            Iter::OfMap { entries, front, back } => {
                let hi = if *back <= entries.len() {
                    *back
                } else {
                    entries.len()
                };
                let n = if *front < hi {
                    hi - *front
                } else {
                    0
                };
                proof {
                    lemma_entry_seq_dv_len(entries@);
                }
                (n, Some(n))
            },
            Iter::OfObject { cur, end } => {
                let n: usize = if *cur < *end {
                    let d = (*end as i128) - (*cur as i128);
                    if d > usize::MAX as i128 {
                        usize::MAX
                    } else {
                        d as usize
                    }
                } else {
                    0
                };
                (n, Some(n))
            },
            Iter::Reversed { outputs } => {
                proof {
                    lemma_out_seq_dv_len(outputs@);
                }
                (outputs.len(), Some(outputs.len()))
            },
            Iter::PairFirst { inner } => inner.size_hint(),
            Iter::PairSecond { inner } => inner.size_hint(),
            Iter::Generate { .. } => (usize::MAX, None),
            Iter::GenerateN { remaining, .. } => (*remaining, Some(*remaining)),
            Iter::Each { inner, .. } => inner.size_hint(),
            Iter::Enumerate { inner, .. } => (0, None),
            Iter::Zip { left, right } => {
                let (a, _) = left.size_hint();
                let (b, _) = right.size_hint();
                (if a <= b {
                    a
                } else {
                    b
                }, None)
            },
            Iter::BytesIter(b) => b.size_hint(),
            Iter::LinesIter(l) => l.size_hint(),
            Iter::SplitIter(sp) => {
                if sp.pattern.len() > 0 {
                    sp.size_hint()
                } else if sp.start <= sp.input.len() {
                    (usize::MAX, None)
                } else {
                    (0, Some(0))
                }
            },
            Iter::GraphemesIter(g) => g.size_hint(),
            Iter::SplitWithIter(sw) => sw.size_hint(),
            Iter::OfOuts { outs, index } => {
                proof {
                    lemma_out_seq_dv_len(outs@);
                }
                let n = if *index <= outs.len() {
                    outs.len() - *index
                } else {
                    0
                };
                (n, Some(n))
            },
            Iter::Cycle { .. } => (0, None),
            Iter::TakeWhile { .. } => (0, None),
        }
    }
}

impl IterM {
    /// Whether draining from the back is supported: the index-based sources
    /// allow it, and both ends advance toward each other.
    pub open spec fn bidir(self) -> bool {
        match self {
            IterM::OfList { .. } => true,
            IterM::OfMap { .. } => true,
            IterM::OfObject { .. } => true,
            _ => false,
        }
    }
}

/// One output was produced from the back: the post state's stream is the
/// pre state's without its last output.
pub open spec fn retreats_to(pre: IterM, post: IterM) -> bool {
    match pre.mlen() {
        Some(n) => n >= 1 && post.mlen() == Some((n - 1) as nat) && forall|k: int|
            0 <= k < n - 1 ==> post.mat(k) == pre.mat(k),
        None => false,
    }
}

/// The contract of one backward step: only a bidirectional handle owes an
/// output, the output is the model's last, and the cursors never cross.
pub open spec fn back_post(pre: IterM, post: IterM, r: Option<OutM>) -> bool {
    pre.modeled() ==> post.modeled() && match r {
        None => (pre.bidir() ==> pre.mlen() == Some(0nat) && post.mlen() == Some(0nat)),
        Some(o) => pre.bidir() && pre.mlen() != Some(0nat) && o == pre.mat(
            pre.rem() - 1,
        ) && retreats_to(pre, post),
    }
}

impl Iter {
    /// Produces the next output from the back of the logical sequence; a
    /// forward-only handle reports nothing and is left as it is.
    pub fn next_back(&mut self) -> (r: Option<Out>)
        ensures
            back_post(old(self).dv(), final(self).dv(), opt_dv(r)),
    {
        match self {
            Iter::OfList { items, front, back } => {
                proof {
                    lemma_seq_dv_len(items@);
                }
                let hi = if *back <= items.len() {
                    *back
                } else {
                    items.len()
                };
                if *front < hi {
                    proof {
                        lemma_seq_dv_index(items@, hi - 1);
                    }
                    let v = items[hi - 1].dup();
                    *back = hi - 1;
                    Some(Out::Value(v))
                } else {
                    *back = hi;
                    None
                }
            },
            Iter::OfMap { entries, front, back } => {
                proof {
                    lemma_entry_seq_dv_len(entries@);
                }
                let hi = if *back <= entries.len() {
                    *back
                } else {
                    entries.len()
                };
                if *front < hi {
                    proof {
                        lemma_entry_seq_dv_index(entries@, hi - 1);
                    }
                    let k = entries[hi - 1].0.dup();
                    let v = entries[hi - 1].1.dup();
                    *back = hi - 1;
                    Some(Out::ValuePair(k, v))
                } else {
                    *back = hi;
                    None
                }
            },
            Iter::OfObject { cur, end } => {
                if *cur < *end {
                    let last = *end - 1;
                    *end = last;
                    Some(Out::Value(Value::Number(last)))
                } else {
                    None
                }
            },
            _ => None,
        }
    }
}

} // verus!
