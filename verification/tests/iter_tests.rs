use lazy_iter_core::callable::Callable;
use lazy_iter_core::core_iter::{
    chain, chunks, count, cycle, each, enumerate, fold, iter, keep, make_iterator, max, min,
    min_max, next, once, product, repeat, reversed, sum, take, to_list, to_tuple, windows, zip,
};
use lazy_iter_core::error::Error;
use lazy_iter_core::ops::value_eq;
use lazy_iter_core::value::Value;

fn nums(ns: &[i64]) -> Value {
    Value::List(ns.iter().map(|n| Value::Number(*n)).collect())
}

fn list_of(v: Value) -> Vec<Value> {
    match v {
        Value::List(items) => items,
        other => panic!("expected a list, got {:?}", other),
    }
}

fn as_num(v: &Value) -> i64 {
    match v {
        Value::Number(n) => *n,
        other => panic!("expected a number, got {:?}", other),
    }
}

#[test]
fn to_list_materializes_in_order() {
    let r = to_list(nums(&[3, 1, 2])).unwrap();
    let items = list_of(r);
    assert_eq!(items.len(), 3);
    assert_eq!(as_num(&items[0]), 3);
    assert_eq!(as_num(&items[1]), 1);
    assert_eq!(as_num(&items[2]), 2);
}

#[test]
fn to_list_round_trip_is_idempotent() {
    let first = to_list(nums(&[5, 7, 9])).unwrap();
    let again = to_list(first).unwrap();
    let items = list_of(again);
    assert_eq!(items.iter().map(as_num).collect::<Vec<_>>(), vec![5, 7, 9]);
}

#[test]
fn to_list_rejects_non_iterable() {
    let r = to_list(Value::Number(3));
    assert!(matches!(r, Err(Error::TypeMismatch { .. })));
}

#[test]
fn chain_count_adds_up() {
    let chained = chain(nums(&[1, 2, 3]), nums(&[4, 5])).unwrap();
    let r = count(chained).unwrap();
    assert_eq!(as_num(&r), 5);
}

#[test]
fn zip_stops_at_shorter_side() {
    let zipped = zip(nums(&[1, 2, 3]), nums(&[10, 20])).unwrap();
    let items = list_of(to_list(zipped).unwrap());
    assert_eq!(items.len(), 2);
    match &items[0] {
        Value::Tuple(pair) => {
            assert_eq!(as_num(&pair[0]), 1);
            assert_eq!(as_num(&pair[1]), 10);
        },
        other => panic!("expected a tuple, got {:?}", other),
    }
}

#[test]
fn sum_of_empty_is_zero() {
    let r = sum(nums(&[]), None).unwrap();
    assert_eq!(as_num(&r), 0);
}

#[test]
fn sum_of_small_run() {
    let r = sum(nums(&[1, 2, 3]), None).unwrap();
    assert_eq!(as_num(&r), 6);
}

#[test]
fn product_of_small_run() {
    let r = product(nums(&[2, 3, 4]), None).unwrap();
    assert_eq!(as_num(&r), 24);
}

#[test]
fn product_of_empty_is_one() {
    let r = product(nums(&[]), None).unwrap();
    assert_eq!(as_num(&r), 1);
}

#[test]
fn fold_runs_left_to_right() {
    let r = fold(nums(&[1, 2, 3]), Value::Number(10), &Callable::Identity);
    // Identity expects one argument but receives two, so the fold faults.
    assert!(r.is_err());
    let r2 = fold(nums(&[5]), Value::Number(0), &Callable::SecondArg).unwrap();
    assert_eq!(as_num(&r2), 5);
}

#[test]
fn min_and_max_of_small_run() {
    let lo = min(nums(&[3, 1, 2]), None).unwrap();
    assert_eq!(as_num(&lo), 1);
    let hi = max(nums(&[3, 1, 2]), None).unwrap();
    assert_eq!(as_num(&hi), 3);
}

#[test]
fn min_max_pairs_both_ends() {
    let r = min_max(nums(&[3, 1, 2]), None).unwrap();
    match r {
        Value::Tuple(pair) => {
            assert_eq!(as_num(&pair[0]), 1);
            assert_eq!(as_num(&pair[1]), 3);
        },
        other => panic!("expected a tuple, got {:?}", other),
    }
}

#[test]
fn min_of_empty_is_null_not_error() {
    let lo = min(nums(&[]), None).unwrap();
    assert!(matches!(lo, Value::Null));
    let hi = max(nums(&[]), None).unwrap();
    assert!(matches!(hi, Value::Null));
    let both = min_max(nums(&[]), None).unwrap();
    assert!(matches!(both, Value::Null));
}

#[test]
fn cycle_taken_seven_replays_in_order() {
    let c = cycle(nums(&[1, 2, 3])).unwrap();
    let t = take(c, Value::Number(7)).unwrap();
    let items = list_of(to_list(t).unwrap());
    assert_eq!(items.iter().map(as_num).collect::<Vec<_>>(), vec![1, 2, 3, 1, 2, 3, 1]);
}

#[test]
fn windows_have_exact_length() {
    let w = windows(nums(&[1, 2, 3, 4, 5]), Value::Number(2)).unwrap();
    let items = list_of(to_list(w).unwrap());
    assert_eq!(items.len(), 4);
    for it in &items {
        match it {
            Value::Tuple(grp) => assert_eq!(grp.len(), 2),
            other => panic!("expected a tuple, got {:?}", other),
        }
    }
}

#[test]
fn windows_shorter_than_group_yield_nothing() {
    let w = windows(nums(&[1, 2]), Value::Number(3)).unwrap();
    let items = list_of(to_list(w).unwrap());
    assert_eq!(items.len(), 0);
}

#[test]
fn windows_reject_zero_size() {
    let r = windows(nums(&[1, 2]), Value::Number(0));
    assert!(matches!(r, Err(Error::InvalidArgument { .. })));
}

#[test]
fn chunks_cover_everything_last_may_be_short() {
    let c = chunks(nums(&[1, 2, 3, 4, 5]), Value::Number(2)).unwrap();
    let items = list_of(to_list(c).unwrap());
    assert_eq!(items.len(), 3);
    match &items[2] {
        Value::Tuple(grp) => {
            assert_eq!(grp.len(), 1);
            assert_eq!(as_num(&grp[0]), 5);
        },
        other => panic!("expected a tuple, got {:?}", other),
    }
}

#[test]
fn chunks_reject_zero_size() {
    let r = chunks(nums(&[1]), Value::Number(0));
    assert!(matches!(r, Err(Error::InvalidArgument { .. })));
}

#[test]
fn reversed_twice_restores_the_order() {
    let once_rev = reversed(nums(&[1, 2, 3])).unwrap();
    let twice_rev = reversed(once_rev).unwrap();
    let items = list_of(to_list(twice_rev).unwrap());
    assert_eq!(items.iter().map(as_num).collect::<Vec<_>>(), vec![1, 2, 3]);
}

#[test]
fn reversed_flips_the_order() {
    let r = reversed(nums(&[1, 2, 3])).unwrap();
    let items = list_of(to_list(r).unwrap());
    assert_eq!(items.iter().map(as_num).collect::<Vec<_>>(), vec![3, 2, 1]);
}

#[test]
fn keep_filters_by_predicate() {
    let k = keep(nums(&[1, 5, 2, 7]), &Callable::LessThanConst(4)).unwrap();
    let items = list_of(to_list(k).unwrap());
    assert_eq!(items.iter().map(as_num).collect::<Vec<_>>(), vec![1, 2]);
}

#[test]
fn keep_predicate_fault_aborts_consumption() {
    let k = keep(nums(&[1, 2, 3, 4]), &Callable::RaiseOn(Box::new(Value::Number(3)), 77)).unwrap();
    let r = to_list(k);
    // RaiseOn is not a boolean predicate on the values before the fault, so
    // the very first element already reports a non-boolean answer...
    assert!(r.is_err());
    // ...while a predicate that answers cleanly until the faulting element
    // surfaces exactly the script error.
    let k2 = keep(nums(&[1, 2]), &Callable::RaiseError(77)).unwrap();
    match to_list(k2) {
        Err(Error::ScriptError { code }) => assert_eq!(code, 77),
        other => panic!("expected the script error, got {:?}", other),
    }
}

#[test]
fn each_maps_and_faults_stop_the_stream() {
    let e = each(nums(&[1, 2, 3]), Callable::AddConst(10)).unwrap();
    let items = list_of(to_list(e).unwrap());
    assert_eq!(items.iter().map(as_num).collect::<Vec<_>>(), vec![11, 12, 13]);

    let e2 = each(nums(&[1, 2, 3]), Callable::RaiseOn(Box::new(Value::Number(2)), 9)).unwrap();
    match to_list(e2) {
        Err(Error::ScriptError { code }) => assert_eq!(code, 9),
        other => panic!("expected the script error, got {:?}", other),
    }
}

#[test]
fn take_while_stops_at_first_refusal() {
    let t = take(nums(&[1, 2, 9, 1]), Value::Callable(Callable::LessThanConst(5))).unwrap();
    let items = list_of(to_list(t).unwrap());
    assert_eq!(items.iter().map(as_num).collect::<Vec<_>>(), vec![1, 2]);
}

#[test]
fn take_rejects_negative_counts() {
    let r = take(nums(&[1]), Value::Number(-1));
    assert!(matches!(r, Err(Error::InvalidArgument { .. })));
}

#[test]
fn enumerate_pairs_indices() {
    let e = enumerate(nums(&[7, 8])).unwrap();
    let items = list_of(to_list(e).unwrap());
    match &items[1] {
        Value::Tuple(pair) => {
            assert_eq!(as_num(&pair[0]), 1);
            assert_eq!(as_num(&pair[1]), 8);
        },
        other => panic!("expected a tuple, got {:?}", other),
    }
}

#[test]
fn once_and_repeat_sources() {
    let o = once(Value::Number(5));
    let items = list_of(to_list(o).unwrap());
    assert_eq!(items.len(), 1);

    let r = repeat(Value::Number(2), Some(4));
    let items = list_of(to_list(r).unwrap());
    assert_eq!(items.iter().map(as_num).collect::<Vec<_>>(), vec![2, 2, 2, 2]);

    let unbounded = repeat(Value::Number(2), None);
    let t = take(unbounded, Value::Number(3)).unwrap();
    let items = list_of(to_list(t).unwrap());
    assert_eq!(items.len(), 3);
}

#[test]
fn generate_calls_each_step() {
    let g = lazy_iter_core::core_iter::generate(Callable::ConstFn(Box::new(Value::Number(6))), Some(3));
    let items = list_of(to_list(g).unwrap());
    assert_eq!(items.iter().map(as_num).collect::<Vec<_>>(), vec![6, 6, 6]);
}

#[test]
fn next_pulls_one_value() {
    let r = next(nums(&[4, 5])).unwrap();
    assert_eq!(as_num(&r), 4);
    let empty = next(nums(&[])).unwrap();
    assert!(matches!(empty, Value::Null));
}

#[test]
fn iter_wraps_and_tuples_collect() {
    let it = iter(nums(&[1, 2])).unwrap();
    let t = to_tuple(it).unwrap();
    match t {
        Value::Tuple(items) => assert_eq!(items.len(), 2),
        other => panic!("expected a tuple, got {:?}", other),
    }
}

#[test]
fn handles_can_be_copied_independently() {
    let mut a = make_iterator(nums(&[1, 2])).unwrap();
    let mut b = a.make_copy();
    assert!(a.next().is_some());
    assert!(a.next().is_some());
    assert!(a.next().is_none());
    assert!(b.next().is_some());
    assert!(b.next().is_some());
    assert!(b.next().is_none());
}

#[test]
fn values_compare_semantically() {
    assert!(value_eq(&nums(&[1, 2]), &nums(&[1, 2])));
    assert!(!value_eq(&nums(&[1, 2]), &nums(&[2, 1])));
    assert!(!value_eq(&Value::Number(1), &Value::Bool(true)));
}

#[test]
fn cycle_of_empty_yields_nothing() {
    let c = cycle(nums(&[])).unwrap();
    let t = take(c, Value::Number(5)).unwrap();
    assert_eq!(list_of(to_list(t).unwrap()).len(), 0);
}

#[test]
fn pipelines_compose() {
    // keep the small values, add ten to each, take two
    let kept = keep(nums(&[1, 9, 2, 8, 3]), &Callable::LessThanConst(5)).unwrap();
    let mapped = each(kept, Callable::AddConst(10)).unwrap();
    let taken = take(mapped, Value::Number(2)).unwrap();
    let items = list_of(to_list(taken).unwrap());
    assert_eq!(items.iter().map(as_num).collect::<Vec<_>>(), vec![11, 12]);
}

#[test]
fn chain_of_empty_sides() {
    let c = chain(nums(&[]), nums(&[4])).unwrap();
    let items = list_of(to_list(c).unwrap());
    assert_eq!(items.iter().map(as_num).collect::<Vec<_>>(), vec![4]);
    let c2 = chain(nums(&[4]), nums(&[])).unwrap();
    assert_eq!(list_of(to_list(c2).unwrap()).len(), 1);
}

#[test]
fn upstream_fault_reaches_the_consumer() {
    // a faulting generator ends every downstream consumer with its fault
    let g = lazy_iter_core::core_iter::generate(Callable::RaiseError(3), Some(4));
    match to_list(g) {
        Err(Error::ScriptError { code }) => assert_eq!(code, 3),
        other => panic!("expected the script error, got {:?}", other),
    }
}
