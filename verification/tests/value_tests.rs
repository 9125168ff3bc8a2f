use lazy_iter_core::core_iter::{count, to_list};
use lazy_iter_core::error::{Error, Op};
use lazy_iter_core::object::ObjInstance;
use lazy_iter_core::ops::{run_binary_op, value_eq};
use lazy_iter_core::value::{KString, Value};

fn num(n: i64) -> Value {
    Value::Number(n)
}

fn obj(n: i64) -> Value {
    Value::Object(ObjInstance::Num(n))
}

#[test]
fn add() {
    let a = run_binary_op(Op::Add, obj(11), obj(22)).unwrap();
    let b = run_binary_op(Op::Add, a, num(33)).unwrap();
    assert!(matches!(b, Value::Object(ObjInstance::Num(66))));
}

#[test]
fn subtract() {
    let a = run_binary_op(Op::Subtract, obj(99), obj(90)).unwrap();
    let b = run_binary_op(Op::Subtract, a, num(9)).unwrap();
    assert!(matches!(b, Value::Object(ObjInstance::Num(0))));
}

#[test]
fn multiply() {
    let a = run_binary_op(Op::Multiply, obj(3), obj(11)).unwrap();
    assert!(matches!(a, Value::Object(ObjInstance::Num(33))));
}

#[test]
fn divide() {
    let a = run_binary_op(Op::Divide, obj(90), obj(10)).unwrap();
    assert!(matches!(a, Value::Object(ObjInstance::Num(9))));
}

#[test]
fn remainder() {
    let a = run_binary_op(Op::Remainder, obj(45), obj(10)).unwrap();
    assert!(matches!(a, Value::Object(ObjInstance::Num(5))));
}

#[test]
fn less() {
    let a = run_binary_op(Op::Less, obj(1), obj(2)).unwrap();
    assert!(matches!(a, Value::Bool(true)));
}

#[test]
fn less_or_equal() {
    let a = run_binary_op(Op::LessOrEqual, obj(2), obj(2)).unwrap();
    assert!(matches!(a, Value::Bool(true)));
}

#[test]
fn equal() {
    let a = run_binary_op(Op::Equal, obj(2), obj(3)).unwrap();
    assert!(matches!(a, Value::Bool(false)));
}

#[test]
fn not_equal() {
    let a = run_binary_op(Op::NotEqual, obj(2), obj(3)).unwrap();
    assert!(matches!(a, Value::Bool(true)));
}

#[test]
fn equal_null_lhs() {
    let a = run_binary_op(Op::Equal, obj(2), Value::Null).unwrap();
    assert!(matches!(a, Value::Bool(false)));
}

#[test]
fn equal_null_rhs() {
    let a = run_binary_op(Op::Equal, Value::Null, obj(2)).unwrap();
    assert!(matches!(a, Value::Bool(false)));
}

#[test]
fn not_equal_null_lhs() {
    let a = run_binary_op(Op::NotEqual, obj(2), Value::Null).unwrap();
    assert!(matches!(a, Value::Bool(true)));
}

#[test]
fn not_equal_null_rhs() {
    let a = run_binary_op(Op::NotEqual, Value::Null, obj(2)).unwrap();
    assert!(matches!(a, Value::Bool(true)));
}

#[test]
fn opaque_instances_support_no_operation() {
    let r = run_binary_op(Op::Add, Value::Object(ObjInstance::Opaque), num(1));
    assert!(matches!(r, Err(Error::UnsupportedOperation { .. })));
}

#[test]
fn arithmetic_overflow_is_checked() {
    let r = run_binary_op(Op::Add, num(i64::MAX), num(1));
    assert!(matches!(r, Err(Error::InvalidArgument { .. })));
    let r2 = run_binary_op(Op::Divide, num(1), num(0));
    assert!(matches!(r2, Err(Error::InvalidArgument { .. })));
}

#[test]
fn mixed_kind_arithmetic_is_a_type_mismatch() {
    let r = run_binary_op(Op::Add, num(1), Value::Bool(true));
    assert!(matches!(r, Err(Error::TypeMismatch { .. })));
}

#[test]
fn strings_concatenate_and_order() {
    let a = Value::Str(KString::from_chars("ab".chars().collect()));
    let b = Value::Str(KString::from_chars("cd".chars().collect()));
    let joined = run_binary_op(Op::Add, a, b).unwrap();
    match &joined {
        Value::Str(s) => assert_eq!(s.chars.iter().collect::<String>(), "abcd"),
        other => panic!("expected a string, got {:?}", other),
    }
    let x = Value::Str(KString::from_chars("abc".chars().collect()));
    let y = Value::Str(KString::from_chars("abd".chars().collect()));
    let lt = run_binary_op(Op::Less, x, y).unwrap();
    assert!(matches!(lt, Value::Bool(true)));
}

#[test]
fn lists_concatenate() {
    let a = Value::List(vec![num(1)]);
    let b = Value::List(vec![num(2)]);
    let joined = run_binary_op(Op::Add, a, b).unwrap();
    assert!(value_eq(&joined, &Value::List(vec![num(1), num(2)])));
}

#[test]
fn objects_iterate_over_their_following_numbers() {
    let items = match to_list(obj(10)).unwrap() {
        Value::List(items) => items,
        other => panic!("expected a list, got {:?}", other),
    };
    assert_eq!(items.len(), 3);
    assert!(value_eq(&items[0], &num(11)));
    assert!(value_eq(&items[2], &num(13)));
}

#[test]
fn bidirectional() {
    let mut it = lazy_iter_core::core_iter::make_iterator(obj(10)).unwrap();
    match it.next_back() {
        Some(o) => match o {
            lazy_iter_core::output::Out::Value(v) => assert!(value_eq(&v, &num(13))),
            other => panic!("expected a value, got {:?}", other),
        },
        None => panic!("expected an output"),
    }
    let r = count(Value::Iterator(Box::new(it))).unwrap();
    assert!(value_eq(&r, &num(2)));
}

#[test]
fn copy_makes_unique_value() {
    let x = Value::List(vec![num(1)]);
    let y = x.dup();
    drop(x);
    assert!(value_eq(&y, &Value::List(vec![num(1)])));
}

#[test]
fn strings_iterate_by_grapheme() {
    let s = Value::Str(KString::from_chars("ok".chars().collect()));
    let items = match to_list(s).unwrap() {
        Value::List(items) => items,
        other => panic!("expected a list, got {:?}", other),
    };
    assert_eq!(items.len(), 2);
}

#[test]
fn index() {
    let r = lazy_iter_core::ops::obj_index(ObjInstance::Num(100), num(23)).unwrap();
    assert!(matches!(r, Value::Number(123)));
    let bad = lazy_iter_core::ops::obj_index(ObjInstance::Num(1), Value::Bool(true));
    assert!(matches!(bad, Err(Error::TypeMismatch { .. })));
}

#[test]
fn call() {
    let r = lazy_iter_core::ops::obj_call(ObjInstance::Num(256), Vec::new()).unwrap();
    assert!(matches!(r, Value::Number(256)));
    let bad = lazy_iter_core::ops::obj_call(ObjInstance::Opaque, Vec::new());
    assert!(matches!(bad, Err(Error::UnsupportedOperation { .. })));
}
