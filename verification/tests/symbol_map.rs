use rune::context::Context;
use rune::context::Object;
use rune::error::Error;
use rune::sub_type::Function;
use rune::symbol::Symbol;
use rune::value::Value;
use std::mem::size_of;

fn list(items: &[i64], cx: &mut Context) -> Value {
    let mut tail = Value::nil();
    for item in items.iter().rev() {
        tail = cx.cons(Value::from_int(*item), tail).unwrap();
    }
    tail
}

fn car(v: Value, cx: &Context) -> Value {
    match cx.get(v) {
        Object::Cons(c) => c.car,
        _ => unreachable!("Type should be a lisp function"),
    }
}

#[test]
fn size() {
    assert_eq!(size_of::<isize>(), size_of::<Symbol>());
    assert_eq!(size_of::<isize>(), size_of::<Function>());
}

#[test]
fn init() {
    let cx = &mut Context::new(usize::MAX);
    cx.intern("foo");
}

#[test]
fn symbol_func() {
    let cx = &mut Context::new(usize::MAX);
    let sym = cx.symbols.map.new_uninterned("foo").unwrap();
    assert_eq!("foo", cx.symbols.map.name(sym).unwrap());
    assert!(cx.func(sym).is_none());
    let func1 = list(&[1], cx);
    cx.set_func(sym, func1, 100).unwrap();
    let before = cx.func(sym).unwrap();
    assert_eq!(car(before, cx), Value::from_int(1));
    let func2 = list(&[2], cx);
    cx.set_func(sym, func2, 100).unwrap();
    let after = cx.func(sym).unwrap();
    assert_eq!(car(after, cx), Value::from_int(2));
    assert_eq!(car(before, cx), Value::from_int(1));

    cx.set_func(sym, Value::nil(), 100).unwrap();
    assert!(cx.func(sym).is_none());
}

#[test]
fn test_mutability() {
    let cx = &mut Context::new(usize::MAX);
    let cons = list(&[1, 2, 3], cx);
    let same = list(&[1, 2, 3], cx);
    assert!(cx.equal(cons, same, 100));
    // is mutable
    cx.set_car(cons, Value::from_int(4)).unwrap();
    let expect = list(&[4, 2, 3], cx);
    assert!(cx.equal(cons, expect, 100));
    let sym = cx.intern("cons-test").unwrap();
    cx.set_func(sym, cons, 100).unwrap();
    // is not mutable
    let func = cx.func(sym).unwrap();
    assert!(matches!(cx.get(func), Object::Cons(_)));
    assert_eq!(cx.set_car(func, Value::from_int(5)), Err(Error::ImmutableCons));
    assert!(cx.equal(func, expect, 100));
}
