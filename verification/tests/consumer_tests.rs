use lazy_iter_core::callable::Callable;
use lazy_iter_core::core_iter::{
    all, any, consume, find, flatten, intersperse, last, next_back, position, skip, step, to_list,
    to_map,
};
use lazy_iter_core::error::{Error, Op};
use lazy_iter_core::ops::{run_unary_negate, value_eq};
use lazy_iter_core::iter::Iter;
use lazy_iter_core::string_iters::{Split, SplitWith};
use lazy_iter_core::value::{KString, Value};

fn nums(ns: &[i64]) -> Value {
    Value::List(ns.iter().map(|n| Value::Number(*n)).collect())
}

fn as_num(v: &Value) -> i64 {
    match v {
        Value::Number(n) => *n,
        other => panic!("expected a number, got {:?}", other),
    }
}

fn listed(v: Value) -> Vec<Value> {
    match to_list(v).unwrap() {
        Value::List(items) => items,
        other => panic!("expected a list, got {:?}", other),
    }
}

#[test]
fn all_and_any_answer_early() {
    let a = all(nums(&[1, 2, 3]), &Callable::LessThanConst(10)).unwrap();
    assert!(matches!(a, Value::Bool(true)));
    let b = all(nums(&[1, 20, 3]), &Callable::LessThanConst(10)).unwrap();
    assert!(matches!(b, Value::Bool(false)));
    let c = any(nums(&[1, 2]), &Callable::GreaterThanConst(10)).unwrap();
    assert!(matches!(c, Value::Bool(false)));
    let d = any(nums(&[1, 20]), &Callable::GreaterThanConst(10)).unwrap();
    assert!(matches!(d, Value::Bool(true)));
}

#[test]
fn all_of_empty_is_true_any_is_false() {
    let a = all(nums(&[]), &Callable::LessThanConst(0)).unwrap();
    assert!(matches!(a, Value::Bool(true)));
    let b = any(nums(&[]), &Callable::LessThanConst(0)).unwrap();
    assert!(matches!(b, Value::Bool(false)));
}

#[test]
fn non_boolean_predicate_answers_are_kind_faults() {
    let r = all(nums(&[1]), &Callable::AddConst(1));
    assert!(matches!(r, Err(Error::TypeMismatch { .. })));
}

#[test]
fn find_and_position_locate_the_first_match() {
    let f = find(nums(&[5, 2, 9]), &Callable::LessThanConst(4)).unwrap();
    assert_eq!(as_num(&f), 2);
    let p = position(nums(&[5, 2, 9]), &Callable::LessThanConst(4)).unwrap();
    assert_eq!(as_num(&p), 1);
    let none = find(nums(&[5]), &Callable::LessThanConst(0)).unwrap();
    assert!(matches!(none, Value::Null));
}

#[test]
fn last_and_consume() {
    let l = last(nums(&[1, 2, 3])).unwrap();
    assert_eq!(as_num(&l), 3);
    let l2 = last(nums(&[])).unwrap();
    assert!(matches!(l2, Value::Null));
    let c = consume(nums(&[1, 2]), None).unwrap();
    assert!(matches!(c, Value::Null));
    let c2 = consume(nums(&[1, 2]), Some(&Callable::AddConst(1))).unwrap();
    assert!(matches!(c2, Value::Null));
    let bad = consume(nums(&[1, 2]), Some(&Callable::RaiseError(4)));
    assert!(matches!(bad, Err(Error::ScriptError { code: 4 })));
}

#[test]
fn skip_drops_a_prefix() {
    let s = skip(nums(&[1, 2, 3, 4]), 2).unwrap();
    let items = listed(s);
    assert_eq!(items.iter().map(as_num).collect::<Vec<_>>(), vec![3, 4]);
    let s2 = skip(nums(&[1]), 5).unwrap();
    assert_eq!(listed(s2).len(), 0);
}

#[test]
fn step_keeps_every_nth() {
    let s = step(nums(&[0, 1, 2, 3, 4, 5, 6]), Value::Number(3)).unwrap();
    let items = listed(s);
    assert_eq!(items.iter().map(as_num).collect::<Vec<_>>(), vec![0, 3, 6]);
    let bad = step(nums(&[1]), Value::Number(0));
    assert!(matches!(bad, Err(Error::InvalidArgument { .. })));
}

#[test]
fn to_map_builds_entries_from_pairs() {
    let pairs = Value::List(vec![
        Value::Tuple(vec![Value::Number(1), Value::Number(10)]),
        Value::Tuple(vec![Value::Number(2), Value::Number(20)]),
        Value::Tuple(vec![Value::Number(1), Value::Number(99)]),
    ]);
    let m = to_map(pairs).unwrap();
    match m {
        Value::Dict(d) => {
            assert_eq!(d.size(), 2);
            assert!(value_eq(&d.get(&Value::Number(1), Value::Null), &Value::Number(99)));
        },
        other => panic!("expected a map, got {:?}", other),
    }
}

#[test]
fn to_map_uses_bare_values_as_keys() {
    let m = to_map(nums(&[7])).unwrap();
    match m {
        Value::Dict(d) => {
            assert_eq!(d.size(), 1);
            assert!(matches!(d.get(&Value::Number(7), Value::Number(-1)), Value::Null));
        },
        other => panic!("expected a map, got {:?}", other),
    }
}

#[test]
fn map_extend_accepts_iterables_of_pairs() {
    let mut d = lazy_iter_core::dict::Dict::empty();
    d.insert(Value::Number(1), Value::Number(10)).unwrap();
    let more = Value::List(vec![Value::Tuple(vec![Value::Number(2), Value::Number(20)])]);
    d.extend(more).unwrap();
    assert_eq!(d.size(), 2);
}

#[test]
fn flatten_splices_one_level() {
    let nested = Value::List(vec![
        nums(&[1, 2]),
        Value::Number(3),
        nums(&[4]),
    ]);
    let f = flatten(nested).unwrap();
    let items = listed(f);
    assert_eq!(items.iter().map(as_num).collect::<Vec<_>>(), vec![1, 2, 3, 4]);
}

#[test]
fn intersperse_stands_between_values() {
    let i = intersperse(nums(&[1, 2, 3]), Value::Number(0)).unwrap();
    let items = listed(i);
    assert_eq!(items.iter().map(as_num).collect::<Vec<_>>(), vec![1, 0, 2, 0, 3]);
    let single = intersperse(nums(&[9]), Value::Number(0)).unwrap();
    assert_eq!(listed(single).len(), 1);
}

#[test]
fn intersperse_with_asks_the_callable() {
    let i = intersperse(
        nums(&[1, 2]),
        Value::Callable(Callable::ConstFn(Box::new(Value::Number(7)))),
    ).unwrap();
    let items = listed(i);
    assert_eq!(items.iter().map(as_num).collect::<Vec<_>>(), vec![1, 7, 2]);
}

#[test]
fn split_with_consumes_accepted_clusters() {
    let s = KString::from_chars("a3b34c".chars().collect());
    let digit = Callable::RaiseError(0);
    // A predicate that faults surfaces the fault as an output.
    let mut sw = SplitWith::new(s, digit);
    match sw.next() {
        Some(lazy_iter_core::output::Out::Error(Error::Prefixed { .. })) => {},
        other => panic!("expected the prefixed fault, got {:?}", other),
    }
}

#[test]
fn split_with_splits_at_matches() {
    let s = KString::from_chars("a,b,,c".chars().collect());
    let comma = Value::Str(KString::from_chars(",".chars().collect()));
    let mut sw = SplitWith::new(s, Callable::EqualsTo(Box::new(comma)));
    let mut got = Vec::new();
    while let Some(o) = sw.next() {
        match o {
            lazy_iter_core::output::Out::Value(Value::Str(p)) => {
                got.push(p.chars.iter().collect::<String>())
            },
            other => panic!("expected a string piece, got {:?}", other),
        }
    }
    assert_eq!(got, vec!["a", "b", "", "c"]);
}

#[test]
fn split_with_keeps_clusters_whole() {
    let s = KString::from_chars("xe\u{301}y".chars().collect());
    let plain_e = Value::Str(KString::from_chars("e".chars().collect()));
    let mut sw = SplitWith::new(s, Callable::EqualsTo(Box::new(plain_e)));
    // The accented cluster is two characters and never equals the plain
    // "e", so nothing splits.
    let mut pieces = 0;
    while let Some(o) = sw.next() {
        match o {
            lazy_iter_core::output::Out::Value(_) => pieces += 1,
            other => panic!("expected a piece, got {:?}", other),
        }
    }
    assert_eq!(pieces, 1);
}

#[test]
fn keep_with_equality_predicate() {
    let k = lazy_iter_core::core_iter::keep(
        nums(&[1, 2, 1, 3]),
        &Callable::EqualsTo(Box::new(Value::Number(1))),
    ).unwrap();
    let items = listed(k);
    assert_eq!(items.iter().map(as_num).collect::<Vec<_>>(), vec![1, 1]);
}

#[test]
fn next_back_drains_from_the_back() {
    let r = next_back(nums(&[1, 2, 3])).unwrap();
    assert_eq!(as_num(&r), 3);
    let empty = next_back(nums(&[])).unwrap();
    assert!(matches!(empty, Value::Null));
}

#[test]
fn negate() {
    let r = run_unary_negate(Value::Number(-123)).unwrap();
    assert_eq!(as_num(&r), 123);
    let o = run_unary_negate(Value::Object(lazy_iter_core::object::ObjInstance::Num(-5))).unwrap();
    assert!(matches!(o, Value::Object(lazy_iter_core::object::ObjInstance::Num(5))));
    let bad = run_unary_negate(Value::Bool(true));
    assert!(matches!(bad, Err(Error::UnsupportedOperation { op: Op::Negate, .. })));
}

#[test]
fn to_string_joins_renderings() {
    let mixed = Value::List(vec![
        Value::Str(KString::from_chars("n=".chars().collect())),
        Value::Number(-120),
        Value::Str(KString::from_chars("!".chars().collect())),
    ]);
    let r = lazy_iter_core::core_iter::to_string(mixed).unwrap();
    match r {
        Value::Str(s) => assert_eq!(s.chars.iter().collect::<String>(), "n=-120!"),
        other => panic!("expected a string, got {:?}", other),
    }
}

#[test]
fn to_string_renders_scalars() {
    let vals = Value::List(vec![Value::Null, Value::Bool(true), Value::Number(0)]);
    let r = lazy_iter_core::core_iter::to_string(vals).unwrap();
    match r {
        Value::Str(s) => assert_eq!(s.chars.iter().collect::<String>(), "nulltrue0"),
        other => panic!("expected a string, got {:?}", other),
    }
}

#[test]
fn to_string_reports_unsupported_renderings() {
    let vals = Value::List(vec![Value::List(vec![])]);
    let r = lazy_iter_core::core_iter::to_string(vals);
    assert!(matches!(r, Err(Error::UnsupportedOperation { op: Op::Display, .. })));
}

#[test]
fn skip_surfaces_the_first_skipped_fault() {
    let g = lazy_iter_core::core_iter::generate(Callable::RaiseError(8), Some(3));
    match skip(g, 2) {
        Err(Error::ScriptError { code }) => assert_eq!(code, 8),
        other => panic!("expected the script error, got {:?}", other),
    }
}

#[test]
fn extend_keeps_insertions_made_before_a_fault() {
    let mut d = lazy_iter_core::dict::Dict::empty();
    let mixed = Value::List(vec![
        Value::Tuple(vec![Value::Number(1), Value::Number(10)]),
        Value::Tuple(vec![Value::List(vec![]), Value::Number(20)]),
    ]);
    let r = d.extend(mixed);
    assert!(matches!(r, Err(Error::TypeMismatch { .. })));
    assert_eq!(d.size(), 1);
}

#[test]
fn empty_pattern_split_repeats_the_empty_string() {
    let handle = Value::Iterator(Box::new(Iter::SplitIter(Split::new(
        KString::from_chars("abc".chars().collect()),
        KString::from_chars(Vec::new()),
    ))));
    let taken = lazy_iter_core::core_iter::take(handle, Value::Number(3)).unwrap();
    let items = listed(taken);
    assert_eq!(items.len(), 3);
    for it in &items {
        match it {
            Value::Str(s) => assert_eq!(s.chars.len(), 0),
            other => panic!("expected an empty string, got {:?}", other),
        }
    }
}

#[test]
fn to_string_renders_numeric_objects() {
    let vals = Value::List(vec![Value::Object(lazy_iter_core::object::ObjInstance::Num(-7))]);
    let r = lazy_iter_core::core_iter::to_string(vals).unwrap();
    match r {
        Value::Str(s) => assert_eq!(s.chars.iter().collect::<String>(), "-7"),
        other => panic!("expected a string, got {:?}", other),
    }
}
