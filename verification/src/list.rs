//! Lists in the heap: taking them apart and building them.
use crate::context::Context;
use crate::context::Object;
use crate::error::Error;
use crate::error::EvalError;
use crate::error::Failure;
use crate::error::Type;
use crate::semantics;
use crate::semantics::COUNT_LIMIT;
use crate::value::Value;
use vstd::prelude::*;

verus! {

/// A result whose success is a vector, as plain mathematical data.
pub open spec fn items_view(r: Result<Vec<Value>, Error>) -> Result<Seq<Value>, Error> {
    match r {
        Ok(items) => Ok(items@),
        Err(e) => Err(e),
    }
}

/// A result of the evaluator, as plain mathematical data.
pub open spec fn shown<T>(r: Result<T, EvalError>) -> Result<T, Failure> {
    match r {
        Ok(v) => Ok(v),
        Err(e) => Err(e@),
    }
}

/// A result without a backtrace as a result of the evaluator.
pub fn lift<T>(r: Result<T, Error>) -> (out: Result<T, EvalError>)
    ensures
        shown(out) == semantics::lifted(r),
{
    match r {
        Ok(v) => Ok(v),
        Err(e) => Err(EvalError::new_error(e)),
    }
}

/// The first element of a list and the rest; `None` for what is no cons cell.
pub fn split(cx: &Context, list: Value) -> (r: Option<(Value, Value)>)
    ensures
        r == semantics::split(cx@, list),
{
    match cx.get(list) {
        Object::Cons(c) => Some((c.car, c.cdr)),
        _ => None,
    }
}

/// Whether `v` is `nil` or a cons cell.
pub fn is_list(cx: &Context, v: Value) -> (b: bool)
    ensures
        b == semantics::is_list(cx@, v),
{
    match cx.get(v) {
        Object::Nil => true,
        Object::Cons(_) => true,
        _ => false,
    }
}

/// A number of arguments as an error reports it.
pub fn arg_count(n: usize) -> (c: u16)
    ensures
        c == semantics::arg_count(n as nat),
{
    (n % 65536) as u16
}

/// The number of elements of a list, counted up to `COUNT_LIMIT`.
pub fn count_list(cx: &Context, list: Value) -> (n: usize)
    ensures
        n == semantics::list_count(cx@, list, COUNT_LIMIT as nat),
        n <= COUNT_LIMIT,
{
    let mut n: usize = 0;
    let mut current = list;
    while n < COUNT_LIMIT as usize
        invariant
            n <= COUNT_LIMIT,
            n + semantics::list_count(cx@, current, (COUNT_LIMIT - n) as nat) == semantics::list_count(
                cx@,
                list,
                COUNT_LIMIT as nat,
            ),
        decreases COUNT_LIMIT - n,
    {
        match split(cx, current) {
            Some((_, rest)) => {
                n += 1;
                current = rest;
            },
            None => {
                return n;
            },
        }
    }
    n
}

/// The elements of a proper list, after `done`.
pub fn list_items(cx: &Context, list: Value, done: Vec<Value>, depth: u64) -> (r: Result<
    Vec<Value>,
    Error,
>)
    ensures
        items_view(r) == semantics::list_items(cx@, list, done@, depth as nat),
{
    let mut items = done;
    let mut current = list;
    let mut fuel = depth;
    loop
        invariant
            semantics::list_items(cx@, current, items@, fuel as nat) == semantics::list_items(
                cx@,
                list,
                done@,
                depth as nat,
            ),
        decreases fuel,
    {
        match cx.get(current) {
            Object::Nil => {
                return Ok(items);
            },
            Object::Cons(c) => {
                if fuel == 0 {
                    return Err(Error::DepthExceeded);
                }
                items.push(c.car);
                current = c.cdr;
                fuel -= 1;
            },
            _ => {
                return Err(Error::TypeError { expected: Type::List, actual: current });
            },
        }
    }
}

/// Builds the list of `items[from..upto]` in front of `tail`.
pub fn list_from(cx: &mut Context, items: &Vec<Value>, from: usize, upto: usize, tail: Value) -> (r:
    Result<Value, Error>)
    requires
        old(cx)@.wf(),
    ensures
        final(cx)@.wf(),
        (final(cx)@, r) == semantics::list_from(old(cx)@, items@, from as nat, upto as nat, tail),
{
    let mut top = upto;
    let mut list = tail;
    while top > from && top <= items.len()
        invariant
            cx@.wf(),
            semantics::list_from(cx@, items@, from as nat, top as nat, list) == semantics::list_from(
                old(cx)@,
                items@,
                from as nat,
                upto as nat,
                tail,
            ),
        decreases top,
    {
        match cx.cons(items[top - 1], list) {
            Err(e) => {
                return Err(e);
            },
            Ok(t) => {
                list = t;
            },
        }
        top -= 1;
    }
    Ok(list)
}

} // verus!
