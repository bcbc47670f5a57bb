use rune::block::Block;
use rune::cell::Cell;
use rune::cell::SubrFn;
use rune::context::intern;
use rune::context::Context;
use rune::context::Object;
use rune::env::Environment;
use rune::error::Error;
use rune::root::RootSet;
use rune::root::Rooted;
use rune::search::string_equal;
use rune::search::string_match;
use rune::string::ByteStringInner;
use rune::string::LispStringInner;
use rune::sub_type::Function;
use rune::sub_type::FunctionValue;
use rune::sub_type::List;
use rune::sub_type::Number;
use rune::sub_type::NumberValue;
use rune::symbol::Symbol;
use rune::symbol_map::SymbolMap;
use rune::symbol_map::SymbolMapCore;
use rune::value::Tag;
use rune::value::Value;
use rune::value::MAX_FIXNUM;
use rune::value::MAX_INDEX;
use rune::value::MIN_FIXNUM;

#[test]
fn integers_round_trip() {
    for x in [0, 1, -1, 42, -42, MAX_FIXNUM, MIN_FIXNUM] {
        let v = Value::from_int(x);
        assert_eq!(v.tag(), Tag::Int);
        assert_eq!(v.untag_int(), x);
    }
}

#[test]
fn integers_keep_sixty_bits() {
    assert_eq!(Value::from_int(MAX_FIXNUM + 1).untag_int(), MIN_FIXNUM);
    assert_eq!(Value::from_int(MIN_FIXNUM - 1).untag_int(), MAX_FIXNUM);
    assert_eq!(Value::from_int(1 << 60).untag_int(), 0);
    assert_eq!(Value::from_int((1 << 60) + 5).untag_int(), 5);
    assert_eq!(Value::from_int(i64::MIN).untag_int(), 0);
    assert_eq!(Value::from_int(i64::MAX).untag_int(), -1);
    assert_eq!(Value::from_int(-(1 << 60) - 3).untag_int(), -3);
}

#[test]
fn tags_round_trip() {
    let tags = [
        Tag::Int,
        Tag::Float,
        Tag::Cons,
        Tag::Symbol,
        Tag::String,
        Tag::ByteString,
        Tag::Vector,
        Tag::HashTable,
        Tag::SubrFn,
        Tag::LispFn,
        Tag::Buffer,
        Tag::Nil,
        Tag::True,
    ];
    for (code, tag) in tags.iter().enumerate() {
        assert_eq!(tag.to_code(), code as u64);
        assert_eq!(Tag::from_code(code as u64), *tag);
        for global in [false, true] {
            for index in [0, 1, 12345, MAX_INDEX] {
                let v = Value::heap(*tag, global, index);
                assert_eq!(v.tag(), *tag);
                assert_eq!(v.is_global(), global);
                assert_eq!(v.index(), index);
            }
        }
    }
    assert_eq!(Value::nil().tag(), Tag::Nil);
    assert_eq!(Value::truth().tag(), Tag::True);
    assert!(Value::nil().is_nil());
    assert!(!Value::truth().is_nil());
    assert!(!Value::from_int(0).is_nil());
    assert_eq!(Symbol::new(7).id(), 7);
    assert_eq!(Symbol::new(7).value.tag(), Tag::Symbol);
    assert_eq!(Symbol::try_from(Value::from_int(7)), None);
    assert_eq!(Symbol::try_from(Symbol::new(7).value), Some(Symbol::new(7)));
    assert!(Tag::Cons.heap_kind());
    assert!(!Tag::Symbol.heap_kind());
}

fn cons(cx: &mut Context, car: Value, cdr: Value) -> Value {
    cx.cons(car, cdr).unwrap()
}

#[test]
fn collection_keeps_what_roots_reach() {
    let cx = &mut Context::new(usize::MAX);
    let env = &mut Environment::new();
    let a = cons(cx, Value::from_int(1), Value::nil());
    let b = cons(cx, Value::from_int(2), a);
    let garbage = cons(cx, Value::from_int(3), b);
    let text = cx.add_string("kept".to_string()).unwrap();
    let vector = cx.add(Cell::Vector(vec![text, Value::from_int(9)])).unwrap();
    let lost = cx.add_string("lost".to_string()).unwrap();
    cx.root(b);
    env.bind(vector);
    assert_eq!(cx.block.in_use(), 6);
    // not forced and not due: nothing happens
    cx.garbage_collect(false, env);
    assert_eq!(cx.block.in_use(), 6);
    cx.garbage_collect(true, env);
    assert_eq!(cx.block.in_use(), 4);
    assert_eq!(cx.get(garbage), Object::Stale);
    assert_eq!(cx.get(lost), Object::Stale);
    assert_eq!(cx.rebind(lost), None);
    assert_eq!(cx.rebind(b), Some(b));
    match cx.get(b) {
        Object::Cons(c) => {
            assert_eq!(c.car, Value::from_int(2));
            assert_eq!(c.cdr, a);
        }
        _ => unreachable!(),
    }
    assert_eq!(cx.get(a), Object::Cons(rune::context::Cons {
        car: Value::from_int(1),
        cdr: Value::nil(),
        mutable: true,
    }));
    assert_eq!(cx.get(text), Object::String);
    assert_eq!(cx.get(vector), Object::Vector);
    // freed cells are used again, the smallest index last
    assert_eq!(cx.block.free, vec![2, 5]);
    let again = cons(cx, Value::nil(), Value::nil());
    assert_eq!(again.index(), 5);
    assert!(cx.well_formed());
}

#[test]
fn collection_frees_cycles() {
    let cx = &mut Context::new(usize::MAX);
    let env = &Environment::new();
    let a = cons(cx, Value::from_int(1), Value::nil());
    let b = cons(cx, Value::from_int(2), a);
    cx.set_cdr(a, b).unwrap();
    cx.root(a);
    cx.garbage_collect(true, env);
    assert_eq!(cx.block.in_use(), 2);
    cx.unroot(0);
    cx.garbage_collect(true, env);
    assert_eq!(cx.block.in_use(), 0);
    assert_eq!(cx.get(a), Object::Stale);
    assert_eq!(cx.get(b), Object::Stale);
}

#[test]
fn collection_is_due_at_the_budget() {
    let cx = &mut Context::new(2);
    let env = &Environment::new();
    cons(cx, Value::nil(), Value::nil());
    cx.garbage_collect(false, env);
    assert_eq!(cx.block.in_use(), 1);
    cons(cx, Value::nil(), Value::nil());
    cx.garbage_collect(false, env);
    assert_eq!(cx.block.in_use(), 0);
}

#[test]
fn every_rooted_shape_is_traced() {
    let cx = &mut Context::new(usize::MAX);
    let env = &mut Environment::new();
    let mut cells = Vec::new();
    for i in 0..12 {
        cells.push(cons(cx, Value::from_int(i), Value::nil()));
    }
    cx.roots.push(Rooted::Scalar(cells[0]));
    cx.roots.push(Rooted::Optional(Some(cells[1])));
    cx.roots.push(Rooted::Optional(None));
    cx.roots.push(Rooted::Pair(cells[2], cells[3]));
    cx.roots.push(Rooted::Sequence(vec![cells[4]]));
    let map = cx.roots.push(Rooted::Mapping { keys: vec![], values: vec![] });
    let set = cx.roots.push(Rooted::Members(vec![]));
    assert!(cx.roots.insert(map, cells[5], cells[6]));
    assert!(cx.roots.insert(map, cells[5], cells[7]));
    assert!(cx.roots.add_member(set, cells[8]));
    assert!(!cx.roots.add_member(set, cells[8]));
    assert!(!cx.roots.add_member(map, cells[8]));
    assert!(!cx.roots.insert(set, cells[8], cells[8]));
    assert!(!cx.roots.push_to(set, cells[8]));
    env.set_var(Symbol::new(100), cells[9]);
    env.save(Symbol::new(100), cells[10]);
    cx.garbage_collect(true, env);
    let alive: Vec<bool> = cells.iter().map(|c| cx.get(*c) != Object::Stale).collect();
    assert_eq!(
        alive,
        vec![true, true, true, true, true, true, false, true, true, true, true, false]
    );
    match cx.roots.get(map) {
        Some(Rooted::Mapping { keys, values }) => {
            assert_eq!(keys, &vec![cells[5]]);
            assert_eq!(values, &vec![cells[7]]);
        }
        _ => unreachable!(),
    }
}

#[test]
fn roots_come_off_in_reverse() {
    let mut roots = RootSet::new();
    assert_eq!(roots.len(), 0);
    assert!(roots.pop().is_none());
    assert_eq!(roots.push(Rooted::Scalar(Value::from_int(1))), 0);
    assert_eq!(roots.push(Rooted::Scalar(Value::from_int(2))), 1);
    assert_eq!(roots.push(Rooted::Scalar(Value::from_int(3))), 2);
    assert!(matches!(roots.pop(), Some(Rooted::Scalar(v)) if v == Value::from_int(3)));
    assert!(roots.set(0, Rooted::Scalar(Value::from_int(7))));
    assert!(!roots.set(5, Rooted::Scalar(Value::from_int(7))));
    roots.truncate(5);
    assert_eq!(roots.len(), 2);
    roots.truncate(1);
    assert_eq!(roots.len(), 1);
    assert!(matches!(roots.get(0), Some(Rooted::Scalar(v)) if *v == Value::from_int(7)));
    assert!(roots.get(1).is_none());
    let mut out = Vec::new();
    roots.trace(&mut out);
    assert_eq!(out, vec![Value::from_int(7)]);
}

#[test]
fn interning_gives_one_symbol_per_name() {
    let cx = &mut Context::new(0);
    let env = &Environment::new();
    let first = intern("some-name", cx).unwrap();
    assert_eq!(intern("some-name", cx), Some(first));
    let other = cx.intern("other-name").unwrap();
    assert_ne!(first, other);
    cx.garbage_collect(true, env);
    cx.garbage_collect(true, env);
    let f = cx.cons(Value::from_int(1), Value::nil()).unwrap();
    cx.set_func(first, f, 10).unwrap();
    assert_eq!(cx.intern("some-name"), Some(first));
    assert_eq!(cx.symbols.get("some-name"), Some(first));
    assert_eq!(cx.symbols.get("no-such-name"), None);
    assert_eq!(cx.symbols.map.name(first).unwrap(), "some-name");
    // the symbols that every table starts with
    assert_eq!(cx.intern("quote"), Some(Symbol::new(rune::symbol::QUOTE)));
    assert_eq!(cx.intern("condition-case"), Some(Symbol::new(rune::symbol::CONDITION_CASE)));
    assert_eq!(cx.intern("&rest"), Some(Symbol::new(rune::symbol::AND_REST)));
    assert_eq!(cx.intern("eq"), Some(Symbol::new(rune::symbol::FIRST_SUBR + 13)));
    assert_eq!(cx.intern("signal"), Some(Symbol::new(rune::symbol::BUILTIN_SYMBOLS - 1)));
    for i in 0..rune::symbol::BUILTIN_SYMBOLS {
        assert_eq!(cx.intern(rune::symbol::builtin_name(i)), Some(Symbol::new(i)));
    }
    assert!(cx.is_keyword(cx.symbols.get(":k").unwrap_or(first)) == false);
    let key = cx.intern(":k").unwrap();
    assert!(cx.is_keyword(key));
    assert!(!cx.is_keyword(first));
    assert!(!cx.is_keyword(Symbol::new(MAX_INDEX)));
}

#[test]
fn pre_init_refuses_a_second_entry() {
    let mut map = SymbolMapCore::with_capacity(4);
    assert_eq!(map.get("a"), None);
    assert_eq!(map.pre_init("a"), Ok(Symbol::new(0)));
    assert_eq!(map.pre_init("b"), Ok(Symbol::new(1)));
    assert_eq!(map.pre_init("a"), Err(Error::AlreadyInterned));
    assert_eq!(map.intern("b"), Some(Symbol::new(1)));
    let hidden = map.new_uninterned("b").unwrap();
    assert_eq!(hidden, Symbol::new(2));
    assert_eq!(map.get("b"), Some(Symbol::new(1)));
    assert_eq!(map.name(hidden).unwrap(), "b");
    assert!(map.name(Symbol::new(3)).is_none());
    assert_eq!(map.func(hidden), None);
    assert!(map.store(hidden, Some(Value::from_int(1))));
    assert_eq!(map.func(hidden), Some(Value::from_int(1)));
    assert!(!map.store(Symbol::new(9), None));
}

#[test]
fn installed_functions_are_copies() {
    let cx = &mut Context::new(usize::MAX);
    let sym = cx.intern("f").unwrap();
    let inner = cx.cons(Value::from_int(2), Value::nil()).unwrap();
    let text = cx.add_string("doc".to_string()).unwrap();
    let vector = cx.add(Cell::Vector(vec![inner, text])).unwrap();
    let outer = cx.cons(inner, vector).unwrap();
    cx.set_func(sym, outer, 10).unwrap();
    let func = cx.func(sym).unwrap();
    assert!(func.is_global());
    assert_ne!(func, outer);
    assert!(cx.equal(func, outer, 10));
    // changing what was installed from does not change the copy
    cx.set_car(inner, Value::from_int(3)).unwrap();
    assert!(!cx.equal(func, outer, 10));
    // and the copy lives on when the local cells are gone
    cx.garbage_collect(true, &Environment::new());
    assert_eq!(cx.get(outer), Object::Stale);
    let copied = match cx.get(func) {
        Object::Cons(c) => c,
        _ => unreachable!(),
    };
    assert!(!copied.mutable);
    assert!(copied.car.is_global());
    assert_eq!(cx.get(copied.cdr), Object::Vector);
    assert_eq!(cx.set_car(copied.car, Value::nil()), Err(Error::ImmutableCons));
    // values that hold no reference are installed as they are
    cx.set_func(sym, Value::from_int(5), 10).unwrap();
    assert_eq!(cx.func(sym), Some(Value::from_int(5)));
    // a symbol that the table does not have
    assert_eq!(
        cx.set_func(Symbol::new(MAX_INDEX), Value::from_int(5), 10),
        Err(Error::StaleReference(Symbol::new(MAX_INDEX).value))
    );
    // a stale reference cannot be installed
    assert_eq!(cx.set_func(sym, outer, 10), Err(Error::StaleReference(outer)));
    // nor a structure deeper than the bound, such as a circular one
    let a = cx.cons(Value::nil(), Value::nil()).unwrap();
    cx.set_cdr(a, a).unwrap();
    assert_eq!(cx.set_func(sym, a, 10), Err(Error::DepthExceeded));
    assert!(cx.well_formed());
}

#[test]
fn function_cells_lead_to_functions() {
    let cx = &mut Context::new(usize::MAX);
    let a = cx.intern("a").unwrap();
    let b = cx.intern("b").unwrap();
    let c = cx.intern("c").unwrap();
    assert_eq!(cx.follow_indirect(a), Err(Error::VoidFunction(a)));
    cx.set_func(a, b.value, 10).unwrap();
    assert_eq!(cx.follow_indirect(a), Err(Error::VoidFunction(a)));
    cx.set_func(b, c.value, 10).unwrap();
    cx.set_func(c, Value::from_int(1), 10).unwrap();
    assert_eq!(cx.follow_indirect(a), Ok(Value::from_int(1)));
    cx.set_func(c, a.value, 10).unwrap();
    assert_eq!(cx.follow_indirect(a), Err(Error::CyclicFunctionIndirection(a)));
    let plus = cx.intern("+").unwrap();
    let f = cx.follow_indirect(plus).unwrap();
    assert_eq!(cx.get(f), Object::SubrFn(SubrFn { code: 9, min: 0, max: 0, variadic: true }));
}

#[test]
fn buffers_live_in_the_global_block() {
    let mut symbols = SymbolMap::new();
    assert!(symbols.well_formed());
    let before = symbols.global_block().len();
    let buffer = symbols.create_buffer("scratch").unwrap();
    assert_eq!(buffer.tag(), Tag::Buffer);
    assert!(buffer.is_global());
    assert_eq!(buffer.index(), before as u64);
    assert_eq!(symbols.global_block().len(), before + 1);
    match symbols.global_block().cell(buffer.index()) {
        Some(Cell::Buffer(b)) => assert_eq!(b.name, "scratch"),
        _ => unreachable!(),
    }
}

#[test]
fn strings_count_code_points() {
    let s = LispStringInner::from_string("aé😀".to_string());
    assert_eq!(s.len(), 3);
    assert_eq!(s.get_char_at(0), Some('a' as u32));
    assert_eq!(s.get_char_at(1), Some('é' as u32));
    assert_eq!(s.get_char_at(2), Some(0x1F600));
    assert_eq!(s.get_char_at(3), None);
    assert_eq!(s.as_str(), "aé😀");
    assert!(s.same(&s.duplicate()));
    assert!(!s.same(&LispStringInner::from_string("a".to_string())));
    assert_eq!(LispStringInner::from_string(String::new()).len(), 0);
}

#[test]
fn byte_strings_escape_what_is_not_ascii() {
    let s = ByteStringInner::new(vec![b'a', 0xc3, 0xa9, b' ', 0xff, 0x80, b'z']);
    assert_eq!(s.display(), "a\\303\\251 \\377\\200z");
    assert_eq!(s.len(), 7);
    assert_eq!(s.get(1), Some(0xc3));
    assert_eq!(s.get(7), None);
    assert_eq!(ByteStringInner::new(vec![]).display(), "");
    assert_eq!(ByteStringInner::new(vec![0x7f]).display(), "\u{7f}");
    assert_eq!(s.duplicate().display(), s.display());
}

#[test]
fn searching() {
    assert!(string_equal("abc", "abc"));
    assert!(!string_equal("abc", "abd"));
    assert_eq!(string_match("a", "abc", None), Value::nil());
}

#[test]
fn equalities() {
    let cx = &mut Context::new(usize::MAX);
    let a = cx.add_float(1.5f64.to_bits()).unwrap();
    let b = cx.add_float(1.5f64.to_bits()).unwrap();
    let c = cx.add_float(2.5f64.to_bits()).unwrap();
    assert!(cx.eq(a, a));
    assert!(!cx.eq(a, b));
    assert!(cx.eql(a, b));
    assert!(!cx.eql(a, c));
    let s = cx.add_string("x".to_string()).unwrap();
    let t = cx.add_string("x".to_string()).unwrap();
    assert!(!cx.eql(s, t));
    assert!(cx.equal(s, t, 1));
    assert!(!cx.equal(s, t, 0));
    let x = cx.add(Cell::ByteString(ByteStringInner::new(vec![1, 2]))).unwrap();
    let y = cx.add(Cell::ByteString(ByteStringInner::new(vec![1, 2]))).unwrap();
    let z = cx.add(Cell::ByteString(ByteStringInner::new(vec![1, 3]))).unwrap();
    assert!(cx.equal(x, y, 1));
    assert!(!cx.equal(x, z, 1));
    let v = cx.add(Cell::Vector(vec![s, a])).unwrap();
    let w = cx.add(Cell::Vector(vec![t, b])).unwrap();
    let u = cx.add(Cell::Vector(vec![t, c])).unwrap();
    assert!(cx.equal(v, w, 2));
    assert!(!cx.equal(v, w, 1));
    assert!(!cx.equal(v, u, 2));
    assert!(!cx.equal(v, s, 2));
    assert!(cx.equal(Value::from_int(1), Value::from_int(1), 0));
    assert!(!cx.equal(Value::from_int(1), Value::from_int(2), 5));
}

#[test]
fn sub_types() {
    let cx = &mut Context::new(usize::MAX);
    let plus = cx.intern("+").unwrap();
    let subr = cx.func(plus).unwrap();
    let f = Function::from(subr, cx).unwrap();
    assert!(matches!(f.val(cx), FunctionValue::SubrFn(s) if s.code == 9));
    assert_eq!(f.as_subr_fn(cx).map(|s| s.variadic), Some(true));
    assert!(f.as_lisp_fn(cx).is_none());
    let lisp = cx
        .add(Cell::LispFn(rune::cell::LispFn { constants: vec![Value::from_int(1)], op_codes: vec![7] }))
        .unwrap();
    let f = Function::from(lisp, cx).unwrap();
    assert_eq!(f.as_lisp_fn(cx).unwrap().op_codes, vec![7]);
    assert!(f.as_subr_fn(cx).is_none());
    assert!(matches!(Function::from(plus.value, cx).unwrap().val(cx), FunctionValue::Symbol(s) if s == plus));
    let pair = cx.cons(Value::nil(), Value::nil()).unwrap();
    assert!(matches!(Function::from(pair, cx).unwrap().val(cx), FunctionValue::Cons(_)));
    assert!(Function::from(Value::from_int(1), cx).is_none());

    assert_eq!(Number::from(5).val(cx), NumberValue::Int(5));
    let float = cx.add_float(2.5f64.to_bits()).unwrap();
    assert_eq!(Number::try_from(float, cx).unwrap().val(cx), NumberValue::Float(2.5f64.to_bits()));
    assert!(Number::try_from(pair, cx).is_none());
    assert_eq!(NumberValue::Int(7).into_obj(cx), Ok(Value::from_int(7)));
    let made = NumberValue::Float(1.25f64.to_bits()).into_obj(cx).unwrap();
    assert_eq!(cx.get(made), Object::Float(1.25f64.to_bits()));

    assert_eq!(List::try_from(Value::nil(), cx), Some(List::Nil));
    assert!(matches!(List::try_from(pair, cx), Some(List::Cons(_))));
    assert_eq!(List::try_from(Value::from_int(1), cx), None);
    assert_eq!(cx.try_as_option(Value::nil()), Ok(None));
    assert!(matches!(cx.try_as_option(pair), Ok(Some(_))));
    assert_eq!(
        cx.try_as_option(float),
        Err(Error::TypeError { expected: rune::error::Type::Cons, actual: float })
    );
    assert_eq!(cx.as_cons(pair).car, Value::nil());
}

#[test]
fn environments_save_and_restore() {
    let env = &mut Environment::new();
    let x = Symbol::new(3);
    let y = Symbol::new(40);
    assert_eq!(env.get_var(x), None);
    env.set_var(x, Value::from_int(1));
    assert_eq!(env.get_var(x), Some(Value::from_int(1)));
    assert_eq!(env.get_var(y), None);
    env.save(x, Value::from_int(1));
    env.set_var(x, Value::from_int(2));
    env.save(x, Value::from_int(2));
    env.set_var(x, Value::from_int(3));
    env.save(y, Value::from_int(9));
    env.restore(1);
    assert_eq!(env.get_var(x), Some(Value::from_int(2)));
    assert_eq!(env.get_var(y), Some(Value::from_int(9)));
    env.restore(0);
    assert_eq!(env.get_var(x), Some(Value::from_int(1)));
    assert_eq!(env.shadow.len(), 0);
    env.bind(Value::from_int(1));
    env.bind(Value::from_int(2));
    env.unbind(5);
    assert_eq!(env.lexical.len(), 2);
    env.unbind(1);
    assert_eq!(env.lexical, vec![Value::from_int(1)]);
}

#[test]
fn broken_blocks_are_told_apart() {
    let mut block = Block::new(false, 10);
    assert!(block.well_formed());
    assert_eq!(block.allocate(Cell::Float(1)), Some(0));
    assert_eq!(block.allocate(Cell::Float(2)), Some(1));
    assert_eq!(block.in_use(), 2);
    block.collect(&vec![Value::heap(Tag::Float, false, 1)]);
    assert!(block.well_formed());
    assert_eq!(block.free, vec![0]);
    block.free.push(0);
    assert!(!block.well_formed());
    block.free = vec![1];
    assert!(!block.well_formed());
    block.free = vec![7];
    assert!(!block.well_formed());
    block.free = vec![0];
    assert!(block.well_formed());
    block.replace(1, Cell::Float(5));
    assert!(matches!(block.cell(1), Some(Cell::Float(5))));
    assert!(block.cell(2).is_none());

    let mut cx = Context::new(0);
    assert!(cx.well_formed());
    cx.symbols.block.cells.push(Cell::Cons { car: Value::nil(), cdr: Value::nil(), mutable: true });
    assert!(!cx.well_formed());
    cx.symbols.block.cells.pop();
    assert!(cx.well_formed());
    let local = cx.cons(Value::nil(), Value::nil()).unwrap();
    cx.symbols.map.store(Symbol::new(0), Some(local));
    assert!(!cx.well_formed());
}
