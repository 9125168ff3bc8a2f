use lazy_iter_core::callable::Callable;
use lazy_iter_core::core_iter::to_list;
use lazy_iter_core::dict::Dict;
use lazy_iter_core::error::Error;
use lazy_iter_core::ops::value_eq;
use lazy_iter_core::value::Value;

fn num(n: i64) -> Value {
    Value::Number(n)
}

fn small_map(pairs: &[(i64, i64)]) -> Dict {
    let mut d = Dict::empty();
    for (k, v) in pairs {
        d.insert(num(*k), num(*v)).unwrap();
    }
    d
}

#[test]
fn insert_and_get_round_trip() {
    let mut d = Dict::empty();
    assert!(matches!(d.insert(num(1), num(10)).unwrap(), Value::Null));
    let old = d.insert(num(1), num(20)).unwrap();
    assert!(value_eq(&old, &num(10)));
    assert!(value_eq(&d.get(&num(1), Value::Null), &num(20)));
    assert!(matches!(d.get(&num(9), Value::Null), Value::Null));
}

#[test]
fn insert_rejects_unkeyable_keys() {
    let mut d = Dict::empty();
    let r = d.insert(Value::List(vec![num(1)]), num(1));
    assert!(matches!(r, Err(Error::TypeMismatch { .. })));
    assert_eq!(d.size(), 0);
}

#[test]
fn remove_is_a_stable_shift() {
    let mut d = small_map(&[(1, 10), (2, 20), (3, 30)]);
    let taken = d.remove(&num(2));
    assert!(value_eq(&taken, &num(20)));
    assert_eq!(d.size(), 2);
    let first = d.get_index(0, Value::Null);
    let second = d.get_index(1, Value::Null);
    match (first, second) {
        (Value::Tuple(a), Value::Tuple(b)) => {
            assert!(value_eq(&a[0], &num(1)));
            assert!(value_eq(&b[0], &num(3)));
        },
        other => panic!("expected tuples, got {:?}", other),
    }
}

#[test]
fn contains_and_clear() {
    let mut d = small_map(&[(1, 10)]);
    assert!(d.contains_key(&num(1)));
    assert!(!d.contains_key(&num(2)));
    d.clear();
    assert!(d.is_empty());
}

#[test]
fn update_reads_transforms_and_stores() {
    let mut d = small_map(&[(1, 10)]);
    let r = d.update(num(1), Value::Null, &Callable::AddConst(5)).unwrap();
    assert!(value_eq(&r, &num(15)));
    assert!(value_eq(&d.get(&num(1), Value::Null), &num(15)));

    let r2 = d.update(num(7), num(100), &Callable::AddConst(1)).unwrap();
    assert!(value_eq(&r2, &num(101)));
    assert!(value_eq(&d.get(&num(7), Value::Null), &num(101)));
}

#[test]
fn update_fault_leaves_the_map_alone() {
    let mut d = small_map(&[(1, 10)]);
    let r = d.update(num(1), Value::Null, &Callable::RaiseError(5));
    assert!(matches!(r, Err(Error::ScriptError { code: 5 })));
    assert!(value_eq(&d.get(&num(1), Value::Null), &num(10)));
}

#[test]
fn keys_and_values_iterate_in_insertion_order() {
    let d = small_map(&[(2, 20), (1, 10)]);
    let ks = to_list(d.keys()).unwrap();
    let vs = to_list(d.values()).unwrap();
    match (ks, vs) {
        (Value::List(ks), Value::List(vs)) => {
            assert!(value_eq(&ks[0], &num(2)));
            assert!(value_eq(&ks[1], &num(1)));
            assert!(value_eq(&vs[0], &num(20)));
            assert!(value_eq(&vs[1], &num(10)));
        },
        other => panic!("expected lists, got {:?}", other),
    }
}

#[test]
fn sort_orders_by_key() {
    let mut d = small_map(&[(3, 30), (1, 10), (2, 20)]);
    d.sort(None).unwrap();
    let first = d.get_index(0, Value::Null);
    let last = d.get_index(2, Value::Null);
    match (first, last) {
        (Value::Tuple(a), Value::Tuple(b)) => {
            assert!(value_eq(&a[0], &num(1)));
            assert!(value_eq(&b[0], &num(3)));
        },
        other => panic!("expected tuples, got {:?}", other),
    }
}

#[test]
fn sort_by_key_function_orders_by_its_answers() {
    let mut d = small_map(&[(1, 30), (2, 10), (3, 20)]);
    d.sort(Some(&Callable::SecondArg)).unwrap();
    let first = d.get_index(0, Value::Null);
    match first {
        Value::Tuple(a) => assert!(value_eq(&a[0], &num(2))),
        other => panic!("expected a tuple, got {:?}", other),
    }
}

#[test]
fn sort_key_fault_reports_and_leaves_map_untouched() {
    let mut d = small_map(&[(1, 10), (2, 20), (3, 30)]);
    let r = d.sort(Some(&Callable::SecondArgRaiseOn(Box::new(Value::Number(30)), 42)));
    match r {
        Err(Error::ScriptError { code }) => assert_eq!(code, 42),
        other => panic!("expected the latched fault, got {:?}", other),
    }
    let first = d.get_index(0, Value::Null);
    match first {
        Value::Tuple(a) => assert!(value_eq(&a[0], &num(1))),
        other => panic!("expected a tuple, got {:?}", other),
    }
    assert_eq!(d.size(), 3);
}

#[test]
fn meta_channel_travels_between_maps() {
    let mut meta_holder = Dict::empty();
    let mut inner = Dict::empty();
    inner.insert(num(1), num(1)).unwrap();
    meta_holder.meta = Some(Box::new(inner));
    let mut plain = small_map(&[(5, 50)]);
    assert!(matches!(plain.get_meta(), Value::Null));
    plain.set_meta(&meta_holder);
    assert!(matches!(plain.get_meta(), Value::Dict(_)));
    assert_eq!(plain.size(), 1);
}

#[test]
fn maps_compare_unordered() {
    let a = small_map(&[(1, 10), (2, 20)]);
    let b = small_map(&[(2, 20), (1, 10)]);
    assert!(value_eq(&Value::Dict(a), &Value::Dict(b)));
    let c = small_map(&[(1, 10)]);
    let d = small_map(&[(1, 11)]);
    assert!(!value_eq(&Value::Dict(c), &Value::Dict(d)));
}

#[test]
fn map_iteration_yields_pairs() {
    let d = small_map(&[(1, 10), (2, 20)]);
    let items = match to_list(Value::Dict(d)).unwrap() {
        Value::List(items) => items,
        other => panic!("expected a list, got {:?}", other),
    };
    assert_eq!(items.len(), 2);
    match &items[0] {
        Value::Tuple(pair) => {
            assert!(value_eq(&pair[0], &num(1)));
            assert!(value_eq(&pair[1], &num(10)));
        },
        other => panic!("expected a pair, got {:?}", other),
    }
}

#[test]
fn extend_from_another_map() {
    let mut d = small_map(&[(1, 10)]);
    let other = small_map(&[(2, 20), (1, 99)]);
    d.extend(Value::Dict(other)).unwrap();
    assert_eq!(d.size(), 2);
    assert!(value_eq(&d.get(&num(1), Value::Null), &num(99)));
}

#[test]
fn sort_orders_string_keys_lexicographically() {
    let mut d = Dict::empty();
    for name in ["pear", "apple", "plum"] {
        let key = Value::Str(lazy_iter_core::value::KString::from_chars(name.chars().collect()));
        d.insert(key, num(0)).unwrap();
    }
    d.sort(None).unwrap();
    let first = d.get_index(0, Value::Null);
    match first {
        Value::Tuple(a) => match &a[0] {
            Value::Str(s) => assert_eq!(s.chars.iter().collect::<String>(), "apple"),
            other => panic!("expected a string key, got {:?}", other),
        },
        other => panic!("expected a tuple, got {:?}", other),
    }
}

#[test]
fn sort_with_incomparable_keys_reports_and_leaves_map_untouched() {
    let mut d = Dict::empty();
    d.insert(num(1), num(10)).unwrap();
    let word = Value::Str(lazy_iter_core::value::KString::from_chars("a".chars().collect()));
    d.insert(word, num(20)).unwrap();
    let r = d.sort(None);
    assert!(matches!(r, Err(Error::TypeMismatch { .. })));
    let first = d.get_index(0, Value::Null);
    match first {
        Value::Tuple(a) => assert!(value_eq(&a[0], &num(1))),
        other => panic!("expected a tuple, got {:?}", other),
    }
}
