//! Values known to be of one family of kinds: functions, numbers, lists.
use crate::cell::Cell;
use crate::cell::CellView;
use crate::cell::LispFn;
use crate::cell::SubrFn;
use crate::context::Cons;
use crate::context::Context;
use crate::context::CxView;
use crate::context::Object;
use crate::error::Error;
use crate::symbol::Symbol;
use crate::value::Tag;
use crate::value::Value;
use vstd::prelude::*;

verus! {

/// A value that can be called.
#[derive(Clone, Copy, Debug, PartialEq, Eq, Structural)]
pub struct Function {
    pub data: Value,
}

/// What a function is.
#[derive(Debug)]
pub enum FunctionValue<'a> {
    LispFn(&'a LispFn),
    SubrFn(SubrFn),
    Cons(Cons),
    Symbol(Symbol),
}

impl Function {
    /// Whether the value denotes something that can be called: a compiled
    /// function, a built-in, a cons cell or a symbol.
    pub open spec fn valid(self, cx: CxView) -> bool {
        cx.object(self.data) is LispFn || cx.object(self.data) is SubrFn || cx.object(self.data) is Cons
            || cx.object(self.data) is Symbol
    }

    /// The value as a function, if it denotes something that can be called.
    pub fn from(data: Value, cx: &Context) -> (f: Option<Function>)
        ensures
            f == if (Function { data }).valid(cx@) {
                Some(Function { data })
            } else {
                None
            },
    {
        match cx.get(data) {
            Object::LispFn => Some(Function { data }),
            Object::SubrFn(_) => Some(Function { data }),
            Object::Cons(_) => Some(Function { data }),
            Object::Symbol(_) => Some(Function { data }),
            _ => None,
        }
    }

    /// What the function is.
    pub fn val<'a>(self, cx: &'a Context) -> (v: FunctionValue<'a>)
        requires
            self.valid(cx@),
        ensures
            match v {
                FunctionValue::LispFn(f) => cx@.cell_of(self.data) == Some(
                    CellView::LispFn { constants: f.constants@, op_codes: f.op_codes@ },
                ),
                FunctionValue::SubrFn(f) => cx@.object(self.data) == Object::SubrFn(f),
                FunctionValue::Cons(c) => cx@.object(self.data) == Object::Cons(c),
                FunctionValue::Symbol(s) => cx@.object(self.data) == Object::Symbol(s),
            },
    {
        match cx.get(self.data) {
            Object::SubrFn(f) => FunctionValue::SubrFn(f),
            Object::Cons(c) => FunctionValue::Cons(c),
            Object::Symbol(s) => FunctionValue::Symbol(s),
            _ => match cx.cell(self.data) {
                Some(Cell::LispFn(f)) => FunctionValue::LispFn(f),
                _ => FunctionValue::Symbol(Symbol { value: self.data }),
            },
        }
    }

    /// The compiled function, if the function is one.
    pub fn as_lisp_fn<'a>(self, cx: &'a Context) -> (f: Option<&'a LispFn>)
        requires
            self.valid(cx@),
        ensures
            match f {
                Some(f) => cx@.cell_of(self.data) == Some(
                    CellView::LispFn { constants: f.constants@, op_codes: f.op_codes@ },
                ),
                None => !(cx@.object(self.data) is LispFn),
            },
    {
        match self.val(cx) {
            FunctionValue::LispFn(x) => Some(x),
            _ => None,
        }
    }

    /// The built-in, if the function is one.
    pub fn as_subr_fn(self, cx: &Context) -> (f: Option<SubrFn>)
        requires
            self.valid(cx@),
        ensures
            match f {
                Some(f) => cx@.object(self.data) == Object::SubrFn(f),
                None => !(cx@.object(self.data) is SubrFn),
            },
    {
        match self.val(cx) {
            FunctionValue::SubrFn(x) => Some(x),
            _ => None,
        }
    }
}

/// A value that is a number.
#[derive(Clone, Copy, Debug, PartialEq, Eq, Structural)]
pub struct Number {
    pub data: Value,
}

/// What a number is: an integer, or the bits of a floating-point number.
#[derive(Clone, Copy, Debug, PartialEq, Eq, Structural)]
pub enum NumberValue {
    Int(i64),
    Float(u64),
}

impl Number {
    /// Whether the value denotes a number.
    pub open spec fn valid(self, cx: CxView) -> bool {
        cx.object(self.data) is Int || cx.object(self.data) is Float
    }

    /// The number that is the integer `x`, wrapped into sixty bits.
    pub fn from(x: i64) -> (n: Number)
        ensures
            n.data == Value::fixnum(x as int),
            n.data.tag_spec() == Tag::Int,
    {
        Number { data: Value::from_int(x) }
    }

    /// The value as a number, if it denotes one.
    pub fn try_from(data: Value, cx: &Context) -> (n: Option<Number>)
        ensures
            n == if (Number { data }).valid(cx@) {
                Some(Number { data })
            } else {
                None
            },
    {
        match cx.get(data) {
            Object::Int(_) => Some(Number { data }),
            Object::Float(_) => Some(Number { data }),
            _ => None,
        }
    }

    /// What the number is.
    pub fn val(self, cx: &Context) -> (v: NumberValue)
        requires
            self.valid(cx@),
        ensures
            match v {
                NumberValue::Int(x) => cx@.object(self.data) == Object::Int(x),
                NumberValue::Float(bits) => cx@.object(self.data) == Object::Float(bits),
            },
    {
        match cx.get(self.data) {
            Object::Int(x) => NumberValue::Int(x),
            Object::Float(bits) => NumberValue::Float(bits),
            _ => NumberValue::Int(0),
        }
    }
}

impl NumberValue {
    /// The value that denotes the number; a floating-point number is put
    /// into the heap.
    pub fn into_obj(self, cx: &mut Context) -> (r: Result<Value, Error>)
        requires
            old(cx)@.wf(),
        ensures
            final(cx)@.wf(),
            match self {
                NumberValue::Int(x) => final(cx)@ == old(cx)@ && r == Ok::<Value, Error>(
                    Value::fixnum(x as int),
                ),
                NumberValue::Float(bits) => (final(cx)@, r) == old(cx)@.add(CellView::Float(bits)),
            },
    {
        match self {
            NumberValue::Int(x) => Ok(Value::from_int(x)),
            NumberValue::Float(bits) => cx.add_float(bits),
        }
    }
}

/// A list: `nil`, or a cons cell.
#[derive(Clone, Copy, Debug, PartialEq, Eq, Structural)]
pub enum List {
    Nil,
    Cons(Cons),
}

impl List {
    /// The value as a list, if it denotes one.
    pub fn try_from(v: Value, cx: &Context) -> (l: Option<List>)
        ensures
            l == match cx@.object(v) {
                Object::Nil => Some(List::Nil),
                Object::Cons(c) => Some(List::Cons(c)),
                _ => None,
            },
    {
        match cx.get(v) {
            Object::Nil => Some(List::Nil),
            Object::Cons(c) => Some(List::Cons(c)),
            _ => None,
        }
    }
}

} // verus!
