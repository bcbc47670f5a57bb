//! The functions through which Lisp code calls functions and expands
//! macros.
use crate::cell::copy_values;
use crate::context::Context;
use crate::context::Object;
use crate::env::Environment;
use crate::error::Error;
use crate::error::EvalError;
use crate::interpreter::as_macro;
use crate::interpreter::call;
use crate::interpreter::call_macro;
use crate::interpreter::outcome;
use crate::interpreter::state;
use crate::list::lift;
use crate::list::list_items;
use crate::semantics;
use crate::value::Value;
use vstd::prelude::*;

verus! {

/// `(apply function arguments... list)`: calls `function` on the arguments
/// before the last and the elements of the last, which is a list.
pub fn apply(function: Value, arguments: &Vec<Value>, env: &mut Environment, cx: &mut Context, depth: u64) -> (r:
    Result<Value, EvalError>)
    requires
        old(cx)@.wf(),
    ensures
        final(cx)@.wf(),
        outcome(*final(env), *final(cx), r) == semantics::apply(
            function,
            arguments@,
            state(*old(env), *old(cx)),
            depth as nat,
        ),
    decreases depth, 8nat,
{
    if arguments.len() == 0 {
        call(function, arguments, Value::nil(), env, cx, depth)
    } else {
        let end = arguments.len() - 1;
        let last = arguments[end];
        let mut args = copy_values(arguments);
        args.pop();
        assert(args@ =~= arguments@.drop_last());
        match list_items(cx, last, args, depth) {
            Err(e) => lift(Err(e)),
            Ok(args) => call(function, &args, Value::nil(), env, cx, depth),
        }
    }
}

/// `(funcall function arguments...)`: calls `function` on the arguments.
pub fn funcall(function: Value, arguments: &Vec<Value>, env: &mut Environment, cx: &mut Context, depth: u64) -> (r:
    Result<Value, EvalError>)
    requires
        old(cx)@.wf(),
    ensures
        final(cx)@.wf(),
        outcome(*final(env), *final(cx), r) == semantics::funcall(
            function,
            arguments@,
            state(*old(env), *old(cx)),
            depth as nat,
        ),
    decreases depth, 8nat,
{
    call(function, arguments, Value::nil(), env, cx, depth)
}

/// `(macroexpand form)`: a form whose head names a macro gives what the
/// macro makes of the rest of the form; any other form gives itself. An
/// environment is refused.
pub fn macroexpand(
    form: Value,
    environment: Option<Value>,
    env: &mut Environment,
    cx: &mut Context,
    depth: u64,
) -> (r: Result<Value, EvalError>)
    requires
        old(cx)@.wf(),
    ensures
        final(cx)@.wf(),
        outcome(*final(env), *final(cx), r) == semantics::macroexpand(
            form,
            environment,
            state(*old(env), *old(cx)),
            depth as nat,
        ),
    decreases depth, 8nat,
{
    if environment.is_some() {
        return lift(Err(Error::Unimplemented));
    }
    if let Object::Cons(c) = cx.get(form) {
        if let Object::Symbol(name) = cx.get(c.car) {
            if let Ok(f) = cx.follow_indirect(name) {
                if let Some(m) = as_macro(cx, f) {
                    return match list_items(cx, c.cdr, Vec::new(), depth) {
                        Err(e) => lift(Err(e)),
                        Ok(args) => call_macro(m, &args, c.car, env, cx, depth),
                    };
                }
            }
        }
    }
    Ok(form)
}

} // verus!
