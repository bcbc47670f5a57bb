//! The built-in functions that neither evaluate nor call anything.
use crate::cell::copy_values;
use crate::cell::SubrFn;
use crate::cell::SUBR_CAR;
use crate::cell::SUBR_CDR;
use crate::cell::SUBR_CONS;
use crate::cell::SUBR_DEFALIAS;
use crate::cell::SUBR_EQ;
use crate::cell::SUBR_MINUS;
use crate::cell::SUBR_PLUS;
use crate::cell::SUBR_SETCAR;
use crate::cell::SUBR_SETCDR;
use crate::cell::SUBR_SIGNAL;
use crate::cell::SUBR_TIMES;
use crate::context::Context;
use crate::context::Object;
use crate::env::Environment;
use crate::error::Error;
use crate::error::EvalError;
use crate::error::Type;
use crate::interpreter::outcome;
use crate::interpreter::state;
use crate::list::arg_count;
use crate::list::lift;
use crate::semantics;
use crate::symbol::Symbol;
use crate::value::wrap_fixnum;
use crate::value::Value;
use crate::value::MAX_FIXNUM;
use crate::value::MIN_FIXNUM;
use vstd::prelude::*;

verus! {

/// The `k`-th argument, or `nil` where there are fewer.
pub fn arg(args: &Vec<Value>, k: usize) -> (v: Value)
    ensures
        v == semantics::arg(args@, k as nat),
{
    if k < args.len() {
        args[k]
    } else {
        Value::nil()
    }
}

/// The arguments after the first.
pub fn tail(args: &Vec<Value>) -> (out: Vec<Value>)
    ensures
        out@ == semantics::tail(args@),
{
    if args.len() == 0 {
        return copy_values(args);
    }
    let mut out: Vec<Value> = Vec::new();
    let mut i: usize = 1;
    while i < args.len()
        invariant
            1 <= i <= args@.len(),
            out@ == args@.subrange(1, i as int),
        decreases args@.len() - i,
    {
        out.push(args[i]);
        assert(out@ =~= args@.subrange(1, i + 1));
        i += 1;
    }
    assert(args@.subrange(1, i as int) =~= args@.skip(1));
    out
}

/// The integer that `v` denotes.
pub fn as_int(cx: &Context, v: Value) -> (r: Result<i64, Error>)
    ensures
        match r {
            Ok(x) => semantics::as_int(cx@, v) == Ok::<int, Error>(x as int) && MIN_FIXNUM <= x
                <= MAX_FIXNUM,
            Err(e) => semantics::as_int(cx@, v) == Err::<int, Error>(e),
        },
{
    match cx.get(v) {
        Object::Int(_) => Ok(v.untag_int()),
        _ => Err(Error::TypeError { expected: Type::Int, actual: v }),
    }
}

/// `x` wrapped into sixty bits.
fn wrap(x: i128) -> (w: i64)
    requires
        -0x40_0000_0000_0000_0000_0000_0000_0000 <= x <= 0x40_0000_0000_0000_0000_0000_0000_0000,
    ensures
        w == wrap_fixnum(x as int),
        MIN_FIXNUM <= w <= MAX_FIXNUM,
{
    let shifted: u128 = (x + 0x40_0000_0000_0000_0000_0000_0000_0000) as u128;
    let m: u128 = shifted % 0x1000_0000_0000_0000;
    proof {
        vstd::arithmetic::div_mod::lemma_mod_multiples_vanish(
            0x0400_0000_0000_0000,
            x as int,
            0x1000_0000_0000_0000,
        );
        assert(0x1000_0000_0000_0000 * 0x0400_0000_0000_0000
            == 0x40_0000_0000_0000_0000_0000_0000_0000int) by (nonlinear_arith);
    }
    if m >= 0x0800_0000_0000_0000 {
        (m as i128 - 0x1000_0000_0000_0000) as i64
    } else {
        m as i64
    }
}

/// What the arithmetic built-ins give.
pub fn arith(cx: &Context, code: u16, args: &Vec<Value>) -> (r: Result<Value, Error>)
    ensures
        r == semantics::arith(cx@, code, args@),
{
    let mut acc: i64 = 0;
    let mut k: usize = 0;
    if code == SUBR_PLUS {
        while k < args.len()
            invariant
                MIN_FIXNUM <= acc <= MAX_FIXNUM,
                semantics::fixnum_result(semantics::plus(cx@, args@, k as nat, acc as int))
                    == semantics::arith(cx@, code, args@),
            decreases args@.len() - k,
        {
            match as_int(cx, args[k]) {
                Err(e) => {
                    return Err(e);
                },
                Ok(x) => {
                    acc = wrap(acc as i128 + x as i128);
                },
            }
            k += 1;
        }
    } else if code == SUBR_TIMES {
        acc = 1;
        while k < args.len()
            invariant
                MIN_FIXNUM <= acc <= MAX_FIXNUM,
                semantics::fixnum_result(semantics::times(cx@, args@, k as nat, acc as int))
                    == semantics::arith(cx@, code, args@),
            decreases args@.len() - k,
        {
            match as_int(cx, args[k]) {
                Err(e) => {
                    return Err(e);
                },
                Ok(x) => {
                    assert(-0x40_0000_0000_0000_0000_0000_0000_0000 <= acc * x
                        <= 0x40_0000_0000_0000_0000_0000_0000_0000) by (nonlinear_arith)
                        requires
                            -0x0800_0000_0000_0000 <= acc <= 0x07ff_ffff_ffff_ffff,
                            -0x0800_0000_0000_0000 <= x <= 0x07ff_ffff_ffff_ffff,
                    ;
                    acc = wrap(acc as i128 * x as i128);
                },
            }
            k += 1;
        }
    } else if args.len() > 0 {
        if args.len() > 1 {
            match as_int(cx, args[0]) {
                Err(e) => {
                    return Err(e);
                },
                Ok(x) => {
                    acc = x;
                },
            }
            k = 1;
        }
        while k < args.len()
            invariant
                MIN_FIXNUM <= acc <= MAX_FIXNUM,
                semantics::fixnum_result(semantics::minus(cx@, args@, k as nat, acc as int))
                    == semantics::arith(cx@, code, args@),
            decreases args@.len() - k,
        {
            match as_int(cx, args[k]) {
                Err(e) => {
                    return Err(e);
                },
                Ok(x) => {
                    acc = wrap(acc as i128 - x as i128);
                },
            }
            k += 1;
        }
    }
    Ok(Value::from_int(acc))
}

/// The first slot of a list: `nil` for `nil`.
pub fn car(cx: &Context, v: Value) -> (r: Result<Value, Error>)
    ensures
        r == semantics::car(cx@, v),
{
    match cx.get(v) {
        Object::Cons(c) => Ok(c.car),
        Object::Nil => Ok(Value::nil()),
        _ => Err(Error::TypeError { expected: Type::List, actual: v }),
    }
}

/// The second slot of a list: `nil` for `nil`.
pub fn cdr(cx: &Context, v: Value) -> (r: Result<Value, Error>)
    ensures
        r == semantics::cdr(cx@, v),
{
    match cx.get(v) {
        Object::Cons(c) => Ok(c.cdr),
        Object::Nil => Ok(Value::nil()),
        _ => Err(Error::TypeError { expected: Type::List, actual: v }),
    }
}

/// Whether the built-in accepts `n` arguments.
pub fn arity_ok(f: SubrFn, n: usize) -> (b: bool)
    ensures
        b == semantics::arity_ok(f, n as nat),
{
    f.min as usize <= n && (f.variadic || n <= f.max as usize)
}

/// The error of a built-in called with `n` arguments that it does not accept.
pub fn arity_error(f: SubrFn, n: usize, name: Value) -> (e: Error)
    ensures
        e == semantics::arity_error(f, n as nat, name),
{
    Error::ArgError {
        expected: if n < f.min as usize {
            f.min
        } else {
            f.max
        },
        actual: arg_count(n),
        name,
    }
}

/// Whether the built-in evaluates or calls.
pub fn calls_back(f: SubrFn) -> (b: bool)
    ensures
        b == semantics::calls_back(f),
{
    f.code == crate::cell::SUBR_FUNCALL || f.code == crate::cell::SUBR_APPLY || f.code
        == crate::cell::SUBR_EVAL || f.code == crate::cell::SUBR_MACROEXPAND
}

/// Runs a built-in that neither evaluates nor calls anything.
pub fn simple_subr(f: SubrFn, args: &Vec<Value>, env: &Environment, cx: &mut Context, depth: u64) -> (r:
    Result<Value, EvalError>)
    requires
        old(cx)@.wf(),
    ensures
        final(cx)@.wf(),
        outcome(*env, *final(cx), r) == semantics::simple_subr(
            f,
            args@,
            state(*env, *old(cx)),
            depth as nat,
        ),
{
    if f.code == SUBR_CONS {
        lift(cx.cons(arg(args, 0), arg(args, 1)))
    } else if f.code == SUBR_CAR {
        lift(car(cx, arg(args, 0)))
    } else if f.code == SUBR_CDR {
        lift(cdr(cx, arg(args, 0)))
    } else if f.code == SUBR_SETCAR {
        match cx.set_car(arg(args, 0), arg(args, 1)) {
            Err(e) => lift(Err(e)),
            Ok(_) => Ok(arg(args, 1)),
        }
    } else if f.code == SUBR_SETCDR {
        match cx.set_cdr(arg(args, 0), arg(args, 1)) {
            Err(e) => lift(Err(e)),
            Ok(_) => Ok(arg(args, 1)),
        }
    } else if f.code == SUBR_PLUS || f.code == SUBR_MINUS || f.code == SUBR_TIMES {
        lift(arith(cx, f.code, args))
    } else if f.code == SUBR_EQ {
        if arg(args, 0) == arg(args, 1) {
            Ok(Value::truth())
        } else {
            Ok(Value::nil())
        }
    } else if f.code == SUBR_DEFALIAS {
        match Symbol::try_from(arg(args, 0)) {
            None => lift(Err(Error::TypeError { expected: Type::Symbol, actual: arg(args, 0) })),
            Some(s) => match cx.set_func(s, arg(args, 1), depth) {
                Err(e) => lift(Err(e)),
                Ok(_) => Ok(arg(args, 0)),
            },
        }
    } else if f.code == SUBR_SIGNAL {
        lift(Err(Error::Signal { condition: arg(args, 0), data: arg(args, 1) }))
    } else {
        lift(Err(Error::InvalidFunction(Value::nil())))
    }
}

} // verus!
