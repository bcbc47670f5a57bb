//! What evaluation means: each function of the evaluator as a mathematical
//! function from the state before to the state after and the result.
//!
//! `depth` bounds how deep evaluation may nest and how many forms of one
//! list it may go through; where the bound is reached the result is
//! `DepthExceeded`.
use crate::cell::CellView;
use crate::cell::SubrFn;
use crate::cell::SUBR_APPLY;
use crate::cell::SUBR_CAR;
use crate::cell::SUBR_CDR;
use crate::cell::SUBR_CONS;
use crate::cell::SUBR_DEFALIAS;
use crate::cell::SUBR_EQ;
use crate::cell::SUBR_EVAL;
use crate::cell::SUBR_FUNCALL;
use crate::cell::SUBR_MACROEXPAND;
use crate::cell::SUBR_MINUS;
use crate::cell::SUBR_PLUS;
use crate::cell::SUBR_SETCAR;
use crate::cell::SUBR_SETCDR;
use crate::cell::SUBR_SIGNAL;
use crate::cell::SUBR_TIMES;
use crate::context::Cons;
use crate::context::CxView;
use crate::context::Object;
use crate::env::EnvView;
use crate::error::Error;
use crate::error::Failure;
use crate::error::Type;
use crate::root::RootedView;
use crate::symbol::Symbol;
use crate::symbol::AND;
use crate::symbol::AND_OPTIONAL;
use crate::symbol::AND_REST;
use crate::symbol::CATCH;
use crate::symbol::CLOSURE;
use crate::symbol::COND;
use crate::symbol::CONDITION_CASE;
use crate::symbol::DEBUG;
use crate::symbol::DEFCONST;
use crate::symbol::DEFVAR;
use crate::symbol::ERROR;
use crate::symbol::FUNCTION;
use crate::symbol::IF;
use crate::symbol::INTERACTIVE;
use crate::symbol::LAMBDA;
use crate::symbol::LET;
use crate::symbol::LET_STAR;
use crate::symbol::MACRO;
use crate::symbol::OR;
use crate::symbol::PROG1;
use crate::symbol::PROG2;
use crate::symbol::PROGN;
use crate::symbol::QUOTE;
use crate::symbol::SETQ;
use crate::symbol::WHILE;
use crate::value::wrap_fixnum;
use crate::value::Value;
use vstd::prelude::*;

verus! {

/// The state that evaluation works on.
pub struct State {
    pub env: EnvView,
    pub cx: CxView,
}

/// The state after a step, and what the step gave.
pub struct Outcome<T> {
    pub st: State,
    pub res: Result<T, Failure>,
}

/// The names of a function's arguments.
pub struct ArgList {
    pub required: Seq<Symbol>,
    pub optional: Seq<Symbol>,
    pub rest: Option<Symbol>,
}

/// The longest list whose length is counted.
pub const COUNT_LIMIT: u64 = 65536;

impl State {
    /// The state with `v` rooted on top.
    pub open spec fn root(self, v: Value) -> State {
        State { cx: self.cx.root(v), ..self }
    }

    /// The state with the registry cut back to its first `len` data.
    pub open spec fn unroot(self, len: nat) -> State {
        State { cx: self.cx.unroot(len), ..self }
    }

    /// The state with the lexical bindings cut back to `lexical`, the saved
    /// dynamic values from place `shadow` on given back, and the registry cut
    /// back to `roots`.
    pub open spec fn unwind(self, lexical: nat, shadow: nat, roots: nat) -> State {
        State { env: self.env.unbind(lexical).restore(shadow), cx: self.cx.unroot(roots) }
    }
}

/// The outcome that gives `v` in state `st`.
pub open spec fn ok<T>(st: State, v: T) -> Outcome<T> {
    Outcome { st, res: Ok(v) }
}

/// The outcome that fails with `e`, which has no backtrace yet, in state `st`.
pub open spec fn fail<T>(st: State, e: Error) -> Outcome<T> {
    Outcome { st, res: Err(Failure::of(e)) }
}

/// A result without a backtrace as an outcome in state `st`.
pub open spec fn lift<T>(st: State, r: Result<T, Error>) -> Outcome<T> {
    Outcome { st, res: lifted(r) }
}

/// A result without a backtrace as a result with an empty one.
pub open spec fn lifted<T>(r: Result<T, Error>) -> Result<T, Failure> {
    match r {
        Ok(v) => Ok(v),
        Err(e) => Err(Failure::of(e)),
    }
}

/// The symbol with the given number, as a value.
pub open spec fn sym(id: u64) -> Value {
    Value::symbol_spec(id as nat)
}

/// A number of arguments as an error reports it.
pub open spec fn arg_count(n: nat) -> u16 {
    (n % 65536) as u16
}

/// The first element of a list and the rest; `None` for what is no cons cell.
pub open spec fn split(cx: CxView, list: Value) -> Option<(Value, Value)> {
    match cx.object(list) {
        Object::Cons(c) => Some((c.car, c.cdr)),
        _ => None,
    }
}

/// Whether `v` is `nil` or a cons cell.
pub open spec fn is_list(cx: CxView, v: Value) -> bool {
    cx.object(v) is Nil || cx.object(v) is Cons
}

/// The number of elements of a list, counted up to `limit`.
pub open spec fn list_count(cx: CxView, list: Value, limit: nat) -> nat
    decreases limit,
{
    if limit == 0 {
        0
    } else {
        match split(cx, list) {
            Some((_, rest)) => 1 + list_count(cx, rest, (limit - 1) as nat),
            None => 0,
        }
    }
}

/// The elements of a proper list after `done`; an error for a list that
/// ends in something else than `nil` or is longer than `depth`.
pub open spec fn list_items(cx: CxView, list: Value, done: Seq<Value>, depth: nat) -> Result<
    Seq<Value>,
    Error,
>
    decreases depth,
{
    match cx.object(list) {
        Object::Nil => Ok(done),
        Object::Cons(c) => if depth == 0 {
            Err(Error::DepthExceeded)
        } else {
            list_items(cx, c.cdr, done.push(c.car), (depth - 1) as nat)
        },
        _ => Err(Error::TypeError { expected: Type::List, actual: list }),
    }
}

/// The outcome of building the list of `items[from..upto]` in front of `tail`.
pub open spec fn list_from(cx: CxView, items: Seq<Value>, from: nat, upto: nat, tail: Value) -> (
    CxView,
    Result<Value, Error>,
)
    decreases upto,
{
    if upto <= from || upto > items.len() {
        (cx, Ok(tail))
    } else {
        let (cx1, r) = cx.cons(items[upto - 1], tail);
        match r {
            Err(e) => (cx1, Err(e)),
            Ok(t) => list_from(cx1, items, from, (upto - 1) as nat, t),
        }
    }
}

/// The newest lexical binding of `symbol` among `lexical[base..top]`.
pub open spec fn lookup_lexical(
    cx: CxView,
    lexical: Seq<Value>,
    base: nat,
    top: nat,
    symbol: Symbol,
) -> Option<Value>
    decreases top,
{
    if top <= base || top > lexical.len() {
        None
    } else {
        match cx.object(lexical[top - 1]) {
            Object::Cons(c) => if c.car == symbol.value {
                Some(lexical[top - 1])
            } else {
                lookup_lexical(cx, lexical, base, (top - 1) as nat, symbol)
            },
            _ => lookup_lexical(cx, lexical, base, (top - 1) as nat, symbol),
        }
    }
}

/// The value of a variable: the symbol itself for a keyword, else the value
/// of its newest lexical binding, else its dynamic value.
pub open spec fn var_ref(base: nat, symbol: Symbol, st: State) -> Result<Value, Error> {
    if st.cx.keyword(symbol) {
        Ok(symbol.value)
    } else {
        match lookup_lexical(st.cx, st.env.lexical, base, st.env.lexical.len(), symbol) {
            Some(binding) => match st.cx.object(binding) {
                Object::Cons(c) => Ok(c.cdr),
                _ => Err(Error::VoidVariable(symbol)),
            },
            None => match st.env.get_var(symbol) {
                Some(v) => Ok(v),
                None => Err(Error::VoidVariable(symbol)),
            },
        }
    }
}

/// The outcome of assigning to a variable: its newest lexical binding takes
/// the value, or else its dynamic value is set.
pub open spec fn var_set(base: nat, symbol: Symbol, value: Value, st: State) -> Outcome<()> {
    match lookup_lexical(st.cx, st.env.lexical, base, st.env.lexical.len(), symbol) {
        Some(binding) => {
            let (cx, r) = st.cx.set_cdr(binding, value);
            lift(State { cx, ..st }, r)
        },
        None => ok(State { env: st.env.set_var(symbol, value), ..st }, ()),
    }
}

/// `(quote x)` gives `x`.
pub open spec fn quote(cx: CxView, forms: Value) -> Result<Value, Error> {
    if !is_list(cx, forms) {
        Err(Error::TypeError { expected: Type::List, actual: forms })
    } else if list_count(cx, forms, COUNT_LIMIT as nat) != 1 {
        Err(
            Error::ArgError {
                expected: 1,
                actual: arg_count(list_count(cx, forms, COUNT_LIMIT as nat)),
                name: sym(QUOTE),
            },
        )
    } else {
        match split(cx, forms) {
            Some((x, _)) => Ok(x),
            None => Err(Error::TypeError { expected: Type::List, actual: forms }),
        }
    }
}

/// The outcome of building the captured environment of a closure: the
/// bindings `lexical[base..top]`, oldest first, in front of `tail`.
pub open spec fn capture_env(cx: CxView, lexical: Seq<Value>, base: nat, top: nat, tail: Value) -> (
    CxView,
    Result<Value, Error>,
) {
    list_from(cx, lexical, base, top, tail)
}

/// `(function f)`: a `lambda` form becomes a closure over the lexical
/// bindings in force, anything else is given as it is.
pub open spec fn eval_function(base: nat, forms: Value, st: State) -> Outcome<Value> {
    if !is_list(st.cx, forms) {
        fail(st, Error::TypeError { expected: Type::List, actual: forms })
    } else if list_count(st.cx, forms, COUNT_LIMIT as nat) != 1 {
        fail(
            st,
            Error::ArgError {
                expected: 1,
                actual: arg_count(list_count(st.cx, forms, COUNT_LIMIT as nat)),
                name: sym(FUNCTION),
            },
        )
    } else {
        match split(st.cx, forms) {
            None => fail(st, Error::TypeError { expected: Type::List, actual: forms }),
            Some((form, _)) => match st.cx.object(form) {
                Object::Cons(f) => if f.car == sym(LAMBDA) {
                    let (cx1, end) = st.cx.cons(Value::true_spec(), Value::nil_spec());
                    match end {
                        Err(e) => fail(State { cx: cx1, ..st }, e),
                        Ok(end) => {
                            let (cx2, env) = capture_env(
                                cx1,
                                st.env.lexical,
                                base,
                                st.env.lexical.len(),
                                end,
                            );
                            match env {
                                Err(e) => fail(State { cx: cx2, ..st }, e),
                                Ok(env) => {
                                    let (cx3, body) = cx2.cons(env, f.cdr);
                                    match body {
                                        Err(e) => fail(State { cx: cx3, ..st }, e),
                                        Ok(body) => {
                                            let (cx4, closure) = cx3.cons(sym(CLOSURE), body);
                                            lift(State { cx: cx4, ..st }, closure)
                                        },
                                    }
                                },
                            }
                        },
                    }
                } else {
                    ok(st, form)
                },
                _ => ok(st, form),
            },
        }
    }
}

/// The pairs that the captured environment of a closure holds, after
/// `done`; the environment must end with `t`.
pub open spec fn parse_closure_env(cx: CxView, list: Value, done: Seq<Value>, depth: nat) -> Result<
    Seq<Value>,
    Error,
>
    decreases depth,
{
    match cx.object(list) {
        Object::Cons(c) => match cx.object(c.car) {
            Object::Cons(_) => if depth == 0 {
                Err(Error::DepthExceeded)
            } else {
                parse_closure_env(cx, c.cdr, done.push(c.car), (depth - 1) as nat)
            },
            Object::True => Ok(done),
            _ => Err(Error::InvalidClosureEnvironmentMember(c.car)),
        },
        Object::Nil => Err(Error::ClosureEnvironmentUnterminated),
        _ => Err(Error::TypeError { expected: Type::List, actual: list }),
    }
}

/// The argument names that an argument list declares, after those already
/// read: required ones, then optional ones after `&optional`, then the one
/// name after `&rest`, which nothing may follow.
pub open spec fn parse_args(cx: CxView, list: Value, done: ArgList, optional: bool, depth: nat) -> Result<
    ArgList,
    Error,
>
    decreases depth,
{
    match cx.object(list) {
        Object::Nil => Ok(done),
        Object::Cons(c) => match Symbol::of_value(c.car) {
            None => Err(Error::TypeError { expected: Type::Symbol, actual: c.car }),
            Some(s) => if depth == 0 {
                Err(Error::DepthExceeded)
            } else if s.id_spec() == AND_OPTIONAL {
                parse_args(cx, c.cdr, done, true, (depth - 1) as nat)
            } else if s.id_spec() == AND_REST {
                match cx.object(c.cdr) {
                    Object::Cons(c2) => match Symbol::of_value(c2.car) {
                        None => Err(Error::TypeError { expected: Type::Symbol, actual: c2.car }),
                        Some(r) => if cx.object(c2.cdr) is Cons {
                            Err(Error::MultipleRestArguments)
                        } else {
                            Ok(ArgList { rest: Some(r), ..done })
                        },
                    },
                    _ => Ok(done),
                }
            } else if optional {
                parse_args(
                    cx,
                    c.cdr,
                    ArgList { optional: done.optional.push(s), ..done },
                    optional,
                    (depth - 1) as nat,
                )
            } else {
                parse_args(
                    cx,
                    c.cdr,
                    ArgList { required: done.required.push(s), ..done },
                    optional,
                    (depth - 1) as nat,
                )
            },
        },
        _ => Err(Error::TypeError { expected: Type::List, actual: list }),
    }
}

/// The argument names that an argument list declares.
pub open spec fn parse_arg_list(cx: CxView, bindings: Value, depth: nat) -> Result<ArgList, Error> {
    parse_args(
        cx,
        bindings,
        ArgList { required: Seq::empty(), optional: Seq::empty(), rest: None },
        false,
        depth,
    )
}

/// The outcome of binding `names[k..]` to the arguments at the same places,
/// or to `nil` past the last argument: one new pair for each, after `vars`.
pub open spec fn bind_names(cx: CxView, names: Seq<Symbol>, args: Seq<Value>, k: nat, vars: Seq<Value>) -> (
    CxView,
    Result<Seq<Value>, Error>,
)
    decreases names.len() - k,
{
    if k >= names.len() {
        (cx, Ok(vars))
    } else {
        let value = if k < args.len() {
            args[k as int]
        } else {
            Value::nil_spec()
        };
        let (cx1, r) = cx.cons(names[k as int].value, value);
        match r {
            Err(e) => (cx1, Err(e)),
            Ok(pair) => bind_names(cx1, names, args, k + 1, vars.push(pair)),
        }
    }
}

/// The outcome of binding the arguments of a call to the names of the
/// argument list: the required names in order, then the optional ones
/// (`nil` where there is no argument), then the rest name to the list of
/// what is left. Too few arguments, or too many without a rest name, are an
/// error.
pub open spec fn bind_args(
    cx: CxView,
    arg_list: Value,
    args: Seq<Value>,
    vars: Seq<Value>,
    name: Value,
    depth: nat,
) -> (CxView, Result<Seq<Value>, Error>) {
    match parse_arg_list(cx, arg_list, depth) {
        Err(e) => (cx, Err(e)),
        Ok(names) => if args.len() < names.required.len() {
            (
                cx,
                Err(
                    Error::ArgError {
                        expected: arg_count(names.required.len()),
                        actual: arg_count(args.len()),
                        name,
                    },
                ),
            )
        } else {
            let positional = names.required + names.optional;
            let (cx1, bound) = bind_names(cx, positional, args, 0, vars);
            match bound {
                Err(e) => (cx1, Err(e)),
                Ok(vars1) => match names.rest {
                    Some(rest) => {
                        let (cx2, list) = list_from(
                            cx1,
                            args,
                            positional.len(),
                            args.len(),
                            Value::nil_spec(),
                        );
                        match list {
                            Err(e) => (cx2, Err(e)),
                            Ok(list) => {
                                let (cx3, pair) = cx2.cons(rest.value, list);
                                match pair {
                                    Err(e) => (cx3, Err(e)),
                                    Ok(pair) => (cx3, Ok(vars1.push(pair))),
                                }
                            },
                        }
                    },
                    None => if args.len() > positional.len() {
                        (
                            cx1,
                            Err(
                                Error::ArgError {
                                    expected: arg_count(positional.len()),
                                    actual: arg_count(args.len()),
                                    name,
                                },
                            ),
                        )
                    } else {
                        (cx1, Ok(vars1))
                    },
                },
            }
        },
    }
}

/// The outcome of binding the variables of a closure call: the pairs of the
/// captured environment, then the arguments; with them, the body.
pub open spec fn bind_variables(cx: CxView, forms: Value, args: Seq<Value>, name: Value, depth: nat) -> (
    CxView,
    Result<(Seq<Value>, Value), Error>,
) {
    match split(cx, forms) {
        None => (cx, Err(Error::ClosureMissingEnvironment)),
        Some((env, rest)) => match parse_closure_env(cx, env, Seq::empty(), depth) {
            Err(e) => (cx, Err(e)),
            Ok(vars) => match split(cx, rest) {
                None => (cx, Err(Error::ClosureMissingArguments)),
                Some((arg_list, body)) => {
                    let (cx1, bound) = bind_args(cx, arg_list, args, vars, name, depth);
                    match bound {
                        Err(e) => (cx1, Err(e)),
                        Ok(vars1) => (cx1, Ok((vars1, body))),
                    }
                },
            },
        },
    }
}

/// The environment with `vars` as further lexical bindings.
pub open spec fn with_bindings(env: EnvView, vars: Seq<Value>) -> EnvView {
    EnvView { lexical: env.lexical + vars, ..env }
}

/// The function that a macro stands for, if `f` is a macro: a cons cell
/// that begins with `macro`.
pub open spec fn as_macro(cx: CxView, f: Value) -> Option<Value> {
    match cx.object(f) {
        Object::Cons(c) => if c.car == sym(MACRO) {
            Some(c.cdr)
        } else {
            None
        },
        _ => None,
    }
}

/// Whether every member of the list is `error` or `debug`.
pub open spec fn conditions(cx: CxView, list: Value, depth: nat) -> Result<(), Error>
    decreases depth,
{
    match split(cx, list) {
        None => Ok(()),
        Some((x, rest)) => if x != sym(DEBUG) && x != sym(ERROR) {
            Err(Error::InvalidConditionHandler(x))
        } else if depth == 0 {
            Err(Error::DepthExceeded)
        } else {
            conditions(cx, rest, (depth - 1) as nat)
        },
    }
}

/// Whether the condition of a handler is one that is handled: the symbol
/// `error`, or a list of `error` and `debug`.
pub open spec fn check_condition(cx: CxView, condition: Value, depth: nat) -> Result<(), Error> {
    match cx.object(condition) {
        Object::Symbol(s) => if condition == sym(ERROR) {
            Ok(())
        } else {
            Err(Error::InvalidConditionHandler(condition))
        },
        Object::Cons(_) => conditions(cx, condition, depth),
        _ => Err(Error::InvalidConditionHandler(condition)),
    }
}

/// The state in which `symbol` is bound to `value` by `let`: a dynamic
/// variable has its old value saved and takes the new one; any other symbol
/// gets a new lexical binding.
pub open spec fn install(symbol: Symbol, value: Value, st: State) -> Outcome<()> {
    match st.env.get_var(symbol) {
        Some(previous) => ok(
            State { env: st.env.save(symbol, previous).set_var(symbol, value), ..st },
            (),
        ),
        None => {
            let (cx1, r) = st.cx.cons(symbol.value, value);
            match r {
                Err(e) => fail(State { cx: cx1, ..st }, e),
                Ok(pair) => ok(State { env: st.env.bind(pair), cx: cx1 }, ()),
            }
        },
    }
}

/// The state in which `pairs[k..]` are bound, in order.
pub open spec fn install_all(pairs: Seq<(Symbol, Value)>, k: nat, st: State) -> Outcome<()>
    decreases pairs.len() - k,
{
    if k >= pairs.len() {
        ok(st, ())
    } else {
        let one = install(pairs[k as int].0, pairs[k as int].1, st);
        match one.res {
            Err(e) => one,
            Ok(_) => install_all(pairs, k + 1, one.st),
        }
    }
}

/// The state in which a variable is defined: `defconst` sets the dynamic
/// value, `defvar` only where there is none yet.
pub open spec fn define(symbol: Symbol, value: Value, constant: bool, st: State) -> State {
    State { env: defined(symbol, value, constant, st.env), ..st }
}

/// The environment in which a variable is defined.
pub open spec fn defined(symbol: Symbol, value: Value, constant: bool, env: EnvView) -> EnvView {
    if constant || env.get_var(symbol).is_none() {
        env.set_var(symbol, value)
    } else {
        env
    }
}

/// The name under which `prog1` and `prog2` report a missing form.
pub open spec fn progx_name(n: u16) -> Value {
    if n == 1 {
        sym(PROG1)
    } else if n == 2 {
        sym(PROG2)
    } else {
        sym(PROGN)
    }
}

/// The integer that `v` denotes, or the error for what is no integer.
pub open spec fn as_int(cx: CxView, v: Value) -> Result<int, Error> {
    match cx.object(v) {
        Object::Int(x) => Ok(x as int),
        _ => Err(Error::TypeError { expected: Type::Int, actual: v }),
    }
}

/// The sum of `args[k..]` and `acc`, wrapped into sixty bits at each step.
pub open spec fn plus(cx: CxView, args: Seq<Value>, k: nat, acc: int) -> Result<int, Error>
    decreases args.len() - k,
{
    if k >= args.len() {
        Ok(acc)
    } else {
        match as_int(cx, args[k as int]) {
            Err(e) => Err(e),
            Ok(x) => plus(cx, args, k + 1, wrap_fixnum(acc + x)),
        }
    }
}

/// `acc` less each of `args[k..]`, wrapped into sixty bits at each step.
pub open spec fn minus(cx: CxView, args: Seq<Value>, k: nat, acc: int) -> Result<int, Error>
    decreases args.len() - k,
{
    if k >= args.len() {
        Ok(acc)
    } else {
        match as_int(cx, args[k as int]) {
            Err(e) => Err(e),
            Ok(x) => minus(cx, args, k + 1, wrap_fixnum(acc - x)),
        }
    }
}

/// The product of `args[k..]` and `acc`, wrapped into sixty bits at each step.
pub open spec fn times(cx: CxView, args: Seq<Value>, k: nat, acc: int) -> Result<int, Error>
    decreases args.len() - k,
{
    if k >= args.len() {
        Ok(acc)
    } else {
        match as_int(cx, args[k as int]) {
            Err(e) => Err(e),
            Ok(x) => times(cx, args, k + 1, wrap_fixnum(acc * x)),
        }
    }
}

/// What the arithmetic built-ins give: `+` the sum, `*` the product, `-` the
/// negation of one argument or the first less the others.
pub open spec fn arith(cx: CxView, code: u16, args: Seq<Value>) -> Result<Value, Error> {
    let r = if code == SUBR_PLUS {
        plus(cx, args, 0, 0)
    } else if code == SUBR_TIMES {
        times(cx, args, 0, 1)
    } else if args.len() == 0 {
        Ok(0int)
    } else if args.len() == 1 {
        minus(cx, args, 0, 0)
    } else {
        match as_int(cx, args[0]) {
            Err(e) => Err(e),
            Ok(x) => minus(cx, args, 1, x),
        }
    };
    fixnum_result(r)
}

/// The integer of a result as an immediate.
pub open spec fn fixnum_result(r: Result<int, Error>) -> Result<Value, Error> {
    match r {
        Err(e) => Err(e),
        Ok(x) => Ok(Value::fixnum(x)),
    }
}

/// The first slot of a list: `nil` for `nil`.
pub open spec fn car(cx: CxView, v: Value) -> Result<Value, Error> {
    match cx.object(v) {
        Object::Cons(c) => Ok(c.car),
        Object::Nil => Ok(Value::nil_spec()),
        _ => Err(Error::TypeError { expected: Type::List, actual: v }),
    }
}

/// The second slot of a list: `nil` for `nil`.
pub open spec fn cdr(cx: CxView, v: Value) -> Result<Value, Error> {
    match cx.object(v) {
        Object::Cons(c) => Ok(c.cdr),
        Object::Nil => Ok(Value::nil_spec()),
        _ => Err(Error::TypeError { expected: Type::List, actual: v }),
    }
}

/// The `k`-th argument, or `nil` where there are fewer.
pub open spec fn arg(args: Seq<Value>, k: nat) -> Value {
    if k < args.len() {
        args[k as int]
    } else {
        Value::nil_spec()
    }
}

/// The arguments after the first.
pub open spec fn tail(args: Seq<Value>) -> Seq<Value> {
    if args.len() > 0 {
        args.skip(1)
    } else {
        args
    }
}

/// Whether a built-in accepts `n` arguments.
pub open spec fn arity_ok(f: SubrFn, n: nat) -> bool {
    f.min <= n && (f.variadic || n <= f.max)
}

/// The error of a built-in called with `n` arguments that it does not accept.
pub open spec fn arity_error(f: SubrFn, n: nat, name: Value) -> Error {
    Error::ArgError {
        expected: if n < f.min {
            f.min
        } else {
            f.max
        },
        actual: arg_count(n),
        name,
    }
}

/// The outcome of a built-in that neither evaluates nor calls anything.
pub open spec fn simple_subr(f: SubrFn, args: Seq<Value>, st: State, depth: nat) -> Outcome<Value> {
    if f.code == SUBR_CONS {
        let (cx, r) = st.cx.cons(arg(args, 0), arg(args, 1));
        lift(State { cx, ..st }, r)
    } else if f.code == SUBR_CAR {
        lift(st, car(st.cx, arg(args, 0)))
    } else if f.code == SUBR_CDR {
        lift(st, cdr(st.cx, arg(args, 0)))
    } else if f.code == SUBR_SETCAR {
        let (cx, r) = st.cx.set_car(arg(args, 0), arg(args, 1));
        match r {
            Err(e) => fail(State { cx, ..st }, e),
            Ok(_) => ok(State { cx, ..st }, arg(args, 1)),
        }
    } else if f.code == SUBR_SETCDR {
        let (cx, r) = st.cx.set_cdr(arg(args, 0), arg(args, 1));
        match r {
            Err(e) => fail(State { cx, ..st }, e),
            Ok(_) => ok(State { cx, ..st }, arg(args, 1)),
        }
    } else if f.code == SUBR_PLUS || f.code == SUBR_MINUS || f.code == SUBR_TIMES {
        lift(st, arith(st.cx, f.code, args))
    } else if f.code == SUBR_EQ {
        ok(
            st,
            if arg(args, 0) == arg(args, 1) {
                Value::true_spec()
            } else {
                Value::nil_spec()
            },
        )
    } else if f.code == SUBR_DEFALIAS {
        match Symbol::of_value(arg(args, 0)) {
            None => fail(st, Error::TypeError { expected: Type::Symbol, actual: arg(args, 0) }),
            Some(s) => {
                let (cx, r) = st.cx.set_func(s, arg(args, 1), depth);
                match r {
                    Err(e) => fail(State { cx, ..st }, e),
                    Ok(_) => ok(State { cx, ..st }, arg(args, 0)),
                }
            },
        }
    } else if f.code == SUBR_SIGNAL {
        fail(st, Error::Signal { condition: arg(args, 0), data: arg(args, 1) })
    } else {
        fail(st, Error::InvalidFunction(Value::nil_spec()))
    }
}

/// Whether the built-in evaluates or calls.
pub open spec fn calls_back(f: SubrFn) -> bool {
    f.code == SUBR_FUNCALL || f.code == SUBR_APPLY || f.code == SUBR_EVAL || f.code
        == SUBR_MACROEXPAND
}

/// The outcome of evaluating `form`: a symbol gives the value of the
/// variable, a cons cell is evaluated as a call or a special form, and
/// anything else gives itself.
pub open spec fn eval_form(base: nat, form: Value, st: State, depth: nat) -> Outcome<Value>
    decreases depth, 0nat,
{
    if depth == 0 {
        fail(st, Error::DepthExceeded)
    } else {
        match st.cx.object(form) {
            Object::Symbol(s) => lift(st, var_ref(base, s, st)),
            Object::Cons(c) => eval_sexp(base, c, st, (depth - 1) as nat),
            _ => ok(st, form),
        }
    }
}

/// The outcome of evaluating the cons cell `c`: the special form that its
/// head names, or else the call of the function that its head names. The
/// rest of the form is rooted meanwhile.
pub open spec fn eval_sexp(base: nat, c: Cons, st: State, depth: nat) -> Outcome<Value>
    decreases depth, 20nat,
{
    let st1 = st.root(c.cdr);
    let out = match st.cx.object(c.car) {
        Object::Symbol(s) => dispatch(base, s, c.cdr, st1, depth),
        _ => fail(st1, Error::InvalidFunction(c.car)),
    };
    Outcome { st: out.st.unroot(st.cx.roots.len()), res: out.res }
}

/// The outcome of the form with head `s` and the rest `forms`.
pub open spec fn dispatch(base: nat, s: Symbol, forms: Value, st: State, depth: nat) -> Outcome<Value>
    decreases depth, 19nat,
{
    let id = s.id_spec();
    if id == QUOTE {
        lift(st, quote(st.cx, forms))
    } else if id == LET {
        eval_let(base, forms, true, st, depth)
    } else if id == LET_STAR {
        eval_let(base, forms, false, st, depth)
    } else if id == IF {
        eval_if(base, forms, st, depth)
    } else if id == AND {
        eval_and(base, forms, Value::true_spec(), st, depth)
    } else if id == OR {
        eval_or(base, forms, st, depth)
    } else if id == COND {
        eval_cond(base, forms, st, depth)
    } else if id == WHILE {
        eval_while(base, forms, st, depth)
    } else if id == PROGN {
        eval_progn(base, forms, st, depth)
    } else if id == PROG1 {
        eval_progx(base, forms, 1, 0, None, st, depth)
    } else if id == PROG2 {
        eval_progx(base, forms, 2, 0, None, st, depth)
    } else if id == SETQ {
        setq(base, forms, 0, Value::nil_spec(), st, depth)
    } else if id == DEFVAR {
        defvar(base, forms, false, st, depth)
    } else if id == DEFCONST {
        defvar(base, forms, true, st, depth)
    } else if id == FUNCTION {
        eval_function(base, forms, st)
    } else if id == INTERACTIVE {
        ok(st, Value::nil_spec())
    } else if id == CATCH {
        catch(base, forms, st, depth)
    } else if id == CONDITION_CASE {
        condition_case(base, forms, st, depth)
    } else {
        eval_call(base, s, forms, st, depth)
    }
}

/// The outcome of evaluating the forms of a list in order: the value of the
/// last one, or `last` where there is none.
pub open spec fn implicit_progn(base: nat, forms: Value, last: Value, st: State, depth: nat) -> Outcome<
    Value,
>
    decreases depth, 2nat,
{
    match split(st.cx, forms) {
        None => ok(st, last),
        Some((form, rest)) => if depth == 0 {
            fail(st, Error::DepthExceeded)
        } else {
            let out = eval_form(base, form, st.root(rest), (depth - 1) as nat);
            let st2 = out.st.unroot(st.cx.roots.len());
            match out.res {
                Err(e) => Outcome { st: st2, res: Err(e) },
                Ok(v) => implicit_progn(base, rest, v, st2, (depth - 1) as nat),
            }
        },
    }
}

/// `(progn forms...)`.
pub open spec fn eval_progn(base: nat, forms: Value, st: State, depth: nat) -> Outcome<Value>
    decreases depth, 3nat,
{
    implicit_progn(base, forms, Value::nil_spec(), st, depth)
}

/// `(and forms...)`: the forms in order up to the first that gives `nil`;
/// the value of the last one, or `last` where there is none.
pub open spec fn eval_and(base: nat, forms: Value, last: Value, st: State, depth: nat) -> Outcome<Value>
    decreases depth, 2nat,
{
    match split(st.cx, forms) {
        None => ok(st, last),
        Some((form, rest)) => if depth == 0 {
            fail(st, Error::DepthExceeded)
        } else {
            let out = eval_form(base, form, st.root(rest), (depth - 1) as nat);
            let st2 = out.st.unroot(st.cx.roots.len());
            match out.res {
                Err(e) => Outcome { st: st2, res: Err(e) },
                Ok(v) => if v == Value::nil_spec() {
                    ok(st2, v)
                } else {
                    eval_and(base, rest, v, st2, (depth - 1) as nat)
                },
            }
        },
    }
}

/// `(or forms...)`: the forms in order up to the first that gives something
/// else than `nil`, which is the value; `nil` where there is none.
pub open spec fn eval_or(base: nat, forms: Value, st: State, depth: nat) -> Outcome<Value>
    decreases depth, 2nat,
{
    match split(st.cx, forms) {
        None => ok(st, Value::nil_spec()),
        Some((form, rest)) => if depth == 0 {
            fail(st, Error::DepthExceeded)
        } else {
            let out = eval_form(base, form, st.root(rest), (depth - 1) as nat);
            let st2 = out.st.unroot(st.cx.roots.len());
            match out.res {
                Err(e) => Outcome { st: st2, res: Err(e) },
                Ok(v) => if v != Value::nil_spec() {
                    ok(st2, v)
                } else {
                    eval_or(base, rest, st2, (depth - 1) as nat)
                },
            }
        },
    }
}

/// `(if c t e...)`.
pub open spec fn eval_if(base: nat, forms: Value, st: State, depth: nat) -> Outcome<Value>
    decreases depth, 3nat,
{
    match split(st.cx, forms) {
        None => fail(st, Error::ArgError { expected: 2, actual: 0, name: sym(IF) }),
        Some((condition, rest)) => match split(st.cx, rest) {
            None => fail(st, Error::ArgError { expected: 2, actual: 1, name: sym(IF) }),
            Some((then, otherwise)) => {
                let out = eval_form(base, condition, st.root(then).root(otherwise), depth);
                let st2 = out.st.unroot(st.cx.roots.len());
                match out.res {
                    Err(e) => Outcome { st: st2, res: Err(e) },
                    Ok(v) => if v != Value::nil_spec() {
                        eval_form(base, then, st2, depth)
                    } else {
                        implicit_progn(base, otherwise, Value::nil_spec(), st2, depth)
                    },
                }
            },
        },
    }
}

/// `(cond clauses...)`: the first clause whose test gives something else
/// than `nil` decides: its body is evaluated, or the test's value is given
/// where it has no body. `nil` where no clause does.
pub open spec fn eval_cond(base: nat, forms: Value, st: State, depth: nat) -> Outcome<Value>
    decreases depth, 3nat,
{
    match split(st.cx, forms) {
        None => ok(st, Value::nil_spec()),
        Some((clause, rest)) => if depth == 0 {
            fail(st, Error::DepthExceeded)
        } else {
            match split(st.cx, clause) {
                None => eval_cond(base, rest, st, (depth - 1) as nat),
                Some((test, body)) => {
                    let out = eval_form(base, test, st.root(rest).root(body), (depth - 1) as nat);
                    let st2 = out.st.unroot(st.cx.roots.len());
                    match out.res {
                        Err(e) => Outcome { st: st2, res: Err(e) },
                        Ok(v) => if v != Value::nil_spec() {
                            if split(st2.cx, body).is_none() {
                                ok(st2, v)
                            } else {
                                implicit_progn(
                                    base,
                                    body,
                                    Value::nil_spec(),
                                    st2,
                                    (depth - 1) as nat,
                                )
                            }
                        } else {
                            eval_cond(base, rest, st2, (depth - 1) as nat)
                        },
                    }
                },
            }
        },
    }
}

/// The loop of `while`: as long as `condition` gives something else than
/// `nil`, the body is evaluated; the value is `nil`.
pub open spec fn while_loop(base: nat, condition: Value, body: Value, st: State, depth: nat) -> Outcome<
    Value,
>
    decreases depth, 3nat,
{
    if depth == 0 {
        fail(st, Error::DepthExceeded)
    } else {
        let out = eval_form(base, condition, st, (depth - 1) as nat);
        match out.res {
            Err(e) => out,
            Ok(v) => if v == Value::nil_spec() {
                ok(out.st, v)
            } else {
                let done = implicit_progn(base, body, Value::nil_spec(), out.st, (depth - 1) as nat);
                match done.res {
                    Err(e) => done,
                    Ok(_) => while_loop(base, condition, body, done.st, (depth - 1) as nat),
                }
            },
        }
    }
}

/// `(while cond body...)`.
pub open spec fn eval_while(base: nat, forms: Value, st: State, depth: nat) -> Outcome<Value>
    decreases depth, 4nat,
{
    match st.cx.object(forms) {
        Object::Cons(c) => {
            let out = while_loop(base, c.car, c.cdr, st.root(c.car).root(c.cdr), depth);
            Outcome { st: out.st.unroot(st.cx.roots.len()), res: out.res }
        },
        Object::Nil => fail(st, Error::ArgError { expected: 1, actual: 0, name: sym(WHILE) }),
        _ => fail(st, Error::TypeError { expected: Type::List, actual: forms }),
    }
}

/// `(prog1 forms...)` and `(prog2 forms...)`: every form is evaluated, and
/// the value of the `n`-th is given. `count` forms have been evaluated, and
/// `kept` is the value to give, if it is there yet.
pub open spec fn eval_progx(
    base: nat,
    forms: Value,
    n: u16,
    count: nat,
    kept: Option<Value>,
    st: State,
    depth: nat,
) -> Outcome<Value>
    decreases depth, 3nat,
{
    match split(st.cx, forms) {
        None => match kept {
            Some(v) => ok(st, v),
            None => fail(
                st,
                Error::ArgError { expected: n, actual: arg_count(count), name: progx_name(n) },
            ),
        },
        Some((form, rest)) => if depth == 0 {
            fail(st, Error::DepthExceeded)
        } else {
            let st1 = match kept {
                Some(k) => st.root(rest).root(k),
                None => st.root(rest),
            };
            let out = eval_form(base, form, st1, (depth - 1) as nat);
            let st2 = out.st.unroot(st.cx.roots.len());
            match out.res {
                Err(e) => Outcome { st: st2, res: Err(e) },
                Ok(v) => eval_progx(
                    base,
                    rest,
                    n,
                    count + 1,
                    if count + 1 == n {
                        Some(v)
                    } else {
                        kept
                    },
                    st2,
                    (depth - 1) as nat,
                ),
            }
        },
    }
}

/// `(setq var val ...)`: each value is evaluated and assigned in turn.
/// `count` forms have been gone through, and `last` is the value assigned
/// last.
pub open spec fn setq(base: nat, forms: Value, count: nat, last: Value, st: State, depth: nat) -> Outcome<
    Value,
>
    decreases depth, 3nat,
{
    match split(st.cx, forms) {
        None => if count < 2 {
            fail(st, Error::ArgError { expected: 2, actual: 0, name: sym(SETQ) })
        } else {
            ok(st, last)
        },
        Some((var, rest)) => match split(st.cx, rest) {
            None => fail(
                st,
                Error::ArgError {
                    expected: arg_count(count),
                    actual: arg_count(count + 1),
                    name: sym(SETQ),
                },
            ),
            Some((form, rest2)) => match Symbol::of_value(var) {
                None => fail(st, Error::TypeError { expected: Type::Symbol, actual: var }),
                Some(s) => if depth == 0 {
                    fail(st, Error::DepthExceeded)
                } else {
                    let out = eval_form(base, form, st.root(rest2), (depth - 1) as nat);
                    let st2 = out.st.unroot(st.cx.roots.len());
                    match out.res {
                        Err(e) => Outcome { st: st2, res: Err(e) },
                        Ok(v) => {
                            let set = var_set(base, s, v, st2);
                            match set.res {
                                Err(e) => Outcome { st: set.st, res: Err(e) },
                                Ok(_) => setq(base, rest2, count + 2, v, set.st, (depth - 1) as nat),
                            }
                        },
                    }
                },
            },
        },
    }
}

/// `(defvar x [value])` and `(defconst x [value])`.
pub open spec fn defvar(base: nat, forms: Value, constant: bool, st: State, depth: nat) -> Outcome<Value>
    decreases depth, 3nat,
{
    match split(st.cx, forms) {
        None => fail(st, Error::ArgError { expected: 1, actual: 0, name: sym(DEFVAR) }),
        Some((x, rest)) => match Symbol::of_value(x) {
            None => fail(st, Error::TypeError { expected: Type::Symbol, actual: x }),
            Some(name) => match split(st.cx, rest) {
                Some((form, _)) => {
                    let out = eval_form(base, form, st, depth);
                    match out.res {
                        Err(e) => out,
                        Ok(v) => ok(define(name, v, constant, out.st), v),
                    }
                },
                None => ok(define(name, Value::nil_spec(), constant, st), Value::nil_spec()),
            },
        },
    }
}

/// `(catch tag body...)`: the tag is evaluated, then the body.
pub open spec fn catch(base: nat, forms: Value, st: State, depth: nat) -> Outcome<Value>
    decreases depth, 3nat,
{
    match split(st.cx, forms) {
        None => fail(st, Error::ArgError { expected: 1, actual: 0, name: sym(CATCH) }),
        Some((tag, body)) => {
            let out = eval_form(base, tag, st.root(body), depth);
            let st2 = out.st.unroot(st.cx.roots.len());
            match out.res {
                Err(e) => Outcome { st: st2, res: Err(e) },
                Ok(_) => implicit_progn(base, body, Value::nil_spec(), st2, depth),
            }
        },
    }
}

/// The symbol and the value that one binding `(sym expr)` of `let` gives.
pub open spec fn let_bind_value(base: nat, c: Cons, st: State, depth: nat) -> Outcome<(Symbol, Value)>
    decreases depth, 3nat,
{
    match split(st.cx, c.cdr) {
        Some((form, rest)) => {
            let out = eval_form(base, form, st.root(rest), depth);
            let st2 = out.st.unroot(st.cx.roots.len());
            match out.res {
                Err(e) => Outcome { st: st2, res: Err(e) },
                Ok(v) => if split(st2.cx, rest).is_some() {
                    fail(st2, Error::LetBindingArity)
                } else {
                    match Symbol::of_value(c.car) {
                        None => fail(st2, Error::LetVariable(c.car)),
                        Some(s) => ok(st2, (s, v)),
                    }
                },
            }
        },
        None => match Symbol::of_value(c.car) {
            None => fail(st, Error::LetVariable(c.car)),
            Some(s) => ok(st, (s, Value::nil_spec())),
        },
    }
}

/// The symbol and the value that one binding of `let` gives: `(sym expr)`,
/// `(sym)` or `sym`.
pub open spec fn let_binding(base: nat, binding: Value, st: State, depth: nat) -> Outcome<
    (Symbol, Value),
>
    decreases depth, 4nat,
{
    match st.cx.object(binding) {
        Object::Cons(c) => let_bind_value(base, c, st, depth),
        Object::Symbol(s) => ok(st, (s, Value::nil_spec())),
        _ => fail(st, Error::TypeError { expected: Type::Cons, actual: binding }),
    }
}

/// The bindings of `let*`: each is evaluated and bound in turn.
pub open spec fn let_bind_serial(base: nat, bindings: Value, st: State, depth: nat) -> Outcome<()>
    decreases depth, 5nat,
{
    match split(st.cx, bindings) {
        None => ok(st, ()),
        Some((binding, rest)) => if depth == 0 {
            fail(st, Error::DepthExceeded)
        } else {
            let one = let_binding(base, binding, st.root(rest), (depth - 1) as nat);
            let st2 = one.st.unroot(st.cx.roots.len());
            match one.res {
                Err(e) => Outcome { st: st2, res: Err(e) },
                Ok((symbol, value)) => {
                    let bound = install(symbol, value, st2);
                    match bound.res {
                        Err(e) => bound,
                        Ok(_) => let_bind_serial(base, rest, bound.st, (depth - 1) as nat),
                    }
                },
            }
        },
    }
}

/// The symbols and values of the bindings of `let`, after `done`; each
/// value stays rooted.
pub open spec fn let_values(
    base: nat,
    bindings: Value,
    done: Seq<(Symbol, Value)>,
    st: State,
    depth: nat,
) -> Outcome<Seq<(Symbol, Value)>>
    decreases depth, 5nat,
{
    match split(st.cx, bindings) {
        None => ok(st, done),
        Some((binding, rest)) => if depth == 0 {
            fail(st, Error::DepthExceeded)
        } else {
            let one = let_binding(base, binding, st.root(rest), (depth - 1) as nat);
            let st2 = one.st.unroot(st.cx.roots.len());
            match one.res {
                Err(e) => Outcome { st: st2, res: Err(e) },
                Ok((symbol, value)) => let_values(
                    base,
                    rest,
                    done.push((symbol, value)),
                    st2.root(value),
                    (depth - 1) as nat,
                ),
            }
        },
    }
}

/// The bindings of `let`: all values are evaluated first, then all are
/// bound.
pub open spec fn let_bind_parallel(base: nat, bindings: Value, st: State, depth: nat) -> Outcome<()>
    decreases depth, 6nat,
{
    let values = let_values(base, bindings, Seq::empty(), st, depth);
    let out = match values.res {
        Err(e) => Outcome { st: values.st, res: Err(e) },
        Ok(pairs) => install_all(pairs, 0, values.st),
    };
    Outcome { st: out.st.unroot(st.cx.roots.len()), res: out.res }
}

/// `(let bindings body...)` and `(let* bindings body...)`. Whatever the
/// outcome, the lexical bindings are afterwards those from before, and every
/// dynamic variable that was rebound has its old value back.
pub open spec fn eval_let(base: nat, forms: Value, parallel: bool, st: State, depth: nat) -> Outcome<
    Value,
>
    decreases depth, 7nat,
{
    match split(st.cx, forms) {
        None => fail(st, Error::ArgError { expected: 1, actual: 0, name: sym(LET) }),
        Some((bindings, body)) => {
            let bound = if parallel {
                let_bind_parallel(base, bindings, st.root(body), depth)
            } else {
                let_bind_serial(base, bindings, st.root(body), depth)
            };
            let out = match bound.res {
                Err(e) => Outcome { st: bound.st, res: Err(e) },
                Ok(_) => implicit_progn(base, body, Value::nil_spec(), bound.st, depth),
            };
            Outcome {
                st: out.st.unwind(st.env.lexical.len(), st.env.shadow.len(), st.cx.roots.len()),
                res: out.res,
            }
        },
    }
}

/// The outcome of a handler that takes the error `e`: the variable is bound
/// to the pair of `error` and the text of the error, and the body is
/// evaluated.
pub open spec fn run_handler(base: nat, var: Value, body: Value, e: Failure, st: State, depth: nat) -> Outcome<
    Value,
>
    decreases depth, 3nat,
{
    let (cx1, text) = st.cx.add(CellView::String(e.error.describe_spec()));
    match text {
        Err(err) => fail(State { cx: cx1, ..st }, err),
        Ok(text) => {
            let (cx2, datum) = cx1.cons(sym(ERROR), text);
            match datum {
                Err(err) => fail(State { cx: cx2, ..st }, err),
                Ok(datum) => {
                    let (cx3, pair) = cx2.cons(var, datum);
                    match pair {
                        Err(err) => fail(State { cx: cx3, ..st }, err),
                        Ok(pair) => {
                            let st3 = State { env: st.env.bind(pair), cx: cx3 };
                            let out = if is_list(cx3, body) {
                                implicit_progn(base, body, Value::nil_spec(), st3, depth)
                            } else {
                                ok(st3, Value::nil_spec())
                            };
                            Outcome {
                                st: State {
                                    env: out.st.env.unbind(st.env.lexical.len()),
                                    ..out.st
                                },
                                res: out.res,
                            }
                        },
                    }
                },
            }
        },
    }
}

/// The outcome of going through the handlers of `condition-case` with the
/// error `e`: the first handler takes it; without one the error stays.
pub open spec fn handle(base: nat, var: Value, handlers: Value, e: Failure, st: State, depth: nat) -> Outcome<
    Value,
>
    decreases depth, 4nat,
{
    match split(st.cx, handlers) {
        None => Outcome { st, res: Err(e) },
        Some((handler, rest)) => if depth == 0 {
            fail(st, Error::DepthExceeded)
        } else {
            match st.cx.object(handler) {
                Object::Cons(h) => match check_condition(st.cx, h.car, (depth - 1) as nat) {
                    Err(err) => fail(st, err),
                    Ok(_) => run_handler(base, var, h.cdr, e, st, (depth - 1) as nat),
                },
                Object::Nil => handle(base, var, rest, e, st, (depth - 1) as nat),
                _ => fail(st, Error::InvalidConditionHandler(handler)),
            }
        },
    }
}

/// `(condition-case var body handlers...)`: the body is evaluated; an
/// error that is not fatal goes to the handlers.
pub open spec fn condition_case(base: nat, forms: Value, st: State, depth: nat) -> Outcome<Value>
    decreases depth, 5nat,
{
    match split(st.cx, forms) {
        None => fail(st, Error::ArgError { expected: 2, actual: 0, name: sym(CONDITION_CASE) }),
        Some((var, rest)) => match split(st.cx, rest) {
            None => fail(
                st,
                Error::ArgError { expected: 2, actual: 1, name: sym(CONDITION_CASE) },
            ),
            Some((body, handlers)) => {
                let out = eval_form(base, body, st.root(var).root(handlers), depth);
                let st2 = out.st.unroot(st.cx.roots.len());
                match out.res {
                    Ok(v) => ok(st2, v),
                    Err(e) => if e.error.fatal() {
                        Outcome { st: st2, res: Err(e) }
                    } else {
                        let handled = handle(base, var, handlers, e, st2.root(var).root(handlers), depth);
                        Outcome { st: handled.st.unroot(st.cx.roots.len()), res: handled.res }
                    },
                }
            },
        },
    }
}

/// The values of the argument forms, in order, after `done`; each value
/// stays rooted.
pub open spec fn eval_args(base: nat, forms: Value, done: Seq<Value>, st: State, depth: nat) -> Outcome<
    Seq<Value>,
>
    decreases depth, 2nat,
{
    match split(st.cx, forms) {
        None => ok(st, done),
        Some((form, rest)) => if depth == 0 {
            fail(st, Error::DepthExceeded)
        } else {
            let out = eval_form(base, form, st.root(rest), (depth - 1) as nat);
            let st2 = out.st.unroot(st.cx.roots.len());
            match out.res {
                Err(e) => Outcome { st: st2, res: Err(e) },
                Ok(v) => eval_args(base, rest, done.push(v), st2.root(v), (depth - 1) as nat),
            }
        },
    }
}

/// The outcome of running the body of a closure or macro of the shape
/// `(env args . body)`: the variables are bound on top of the lexical
/// bindings, the body is evaluated with just them in sight, and they are
/// dropped again.
pub open spec fn call_forms(forms: Value, args: Seq<Value>, name: Value, st: State, depth: nat) -> Outcome<
    Value,
>
    decreases depth, 3nat,
{
    let (cx1, bound) = bind_variables(st.cx, forms, args, name, depth);
    match bound {
        Err(e) => fail(State { cx: cx1, ..st }, e),
        Ok((vars, body)) => {
            let st2 = State { env: with_bindings(st.env, vars), cx: cx1 };
            let out = implicit_progn(st.env.lexical.len(), body, Value::nil_spec(), st2, depth);
            Outcome {
                st: State { env: out.st.env.unbind(st.env.lexical.len()), ..out.st },
                res: out.res,
            }
        },
    }
}

/// The outcome of calling the closure `closure`, whose cell holds `c`. The
/// closure and the arguments are rooted for as long as the call lasts, and
/// the call begins with a collection, if one is due.
pub open spec fn call_closure(
    closure: Value,
    c: Cons,
    args: Seq<Value>,
    name: Value,
    st: State,
    depth: nat,
) -> Outcome<Value>
    decreases depth, 4nat,
{
    let rooted = CxView {
        roots: st.cx.roots.push(RootedView::Scalar(closure)).push(RootedView::Sequence(args)),
        ..st.cx
    };
    let st1 = State { cx: rooted.collect(st.env, false), ..st };
    let out = if c.car != sym(CLOSURE) {
        fail(st1, Error::TypeError { expected: Type::Func, actual: c.car })
    } else {
        call_forms(c.cdr, args, name, st1, depth)
    };
    Outcome { st: out.st.unroot(st.cx.roots.len()), res: out.res }
}

/// The outcome of calling a built-in.
pub open spec fn call_subr(f: SubrFn, args: Seq<Value>, name: Value, st: State, depth: nat) -> Outcome<
    Value,
>
    decreases depth, 4nat,
{
    if !arity_ok(f, args.len()) {
        fail(st, arity_error(f, args.len(), name))
    } else if !calls_back(f) {
        simple_subr(f, args, st, depth)
    } else if depth == 0 {
        fail(st, Error::DepthExceeded)
    } else if f.code == SUBR_FUNCALL {
        funcall(arg(args, 0), tail(args), st, (depth - 1) as nat)
    } else if f.code == SUBR_APPLY {
        apply(arg(args, 0), tail(args), st, (depth - 1) as nat)
    } else if f.code == SUBR_EVAL {
        eval(arg(args, 0), st, (depth - 1) as nat)
    } else {
        macroexpand(
            arg(args, 0),
            if arg(args, 1) != Value::nil_spec() {
                Some(arg(args, 1))
            } else {
                None
            },
            st,
            (depth - 1) as nat,
        )
    }
}

/// An outcome whose error, if it is one, has passed through the call of
/// `name` on `args`.
pub open spec fn traced(out: Outcome<Value>, name: Value, args: Seq<Value>) -> Outcome<Value> {
    Outcome { st: out.st, res: traced_result(out.res, name, args) }
}

/// A result whose error, if it is one, has passed through the call of
/// `name` on `args`.
pub open spec fn traced_result(r: Result<Value, Failure>, name: Value, args: Seq<Value>) -> Result<
    Value,
    Failure,
> {
    match r {
        Ok(v) => Ok(v),
        Err(e) => Err(e.traced(name, args)),
    }
}

/// The outcome of calling `func` on `args` under the name `name` (a symbol,
/// or `nil` for an anonymous function): a built-in is run, a closure is
/// called, a symbol stands for the function it leads to, and nothing else
/// can be called.
pub open spec fn call(func: Value, args: Seq<Value>, name: Value, st: State, depth: nat) -> Outcome<
    Value,
>
    decreases depth, 5nat,
{
    match st.cx.object(func) {
        Object::SubrFn(f) => traced(call_subr(f, args, name, st, depth), name, args),
        Object::Cons(c) => traced(call_closure(func, c, args, name, st, depth), name, args),
        Object::Symbol(s) => match st.cx.follow_indirect(s) {
            Err(e) => fail(st, e),
            Ok(f) => if depth == 0 {
                fail(st, Error::DepthExceeded)
            } else {
                call(f, args, name, st, (depth - 1) as nat)
            },
        },
        Object::LispFn => fail(st, Error::InvalidFunction(func)),
        _ => fail(st, Error::TypeError { expected: Type::Func, actual: func }),
    }
}

/// The outcome of calling the function `m` that a macro stands for: a
/// function is called as such, and what begins with the captured
/// environment is run as the body of a closure.
pub open spec fn call_macro(m: Value, args: Seq<Value>, name: Value, st: State, depth: nat) -> Outcome<
    Value,
>
    decreases depth, 6nat,
{
    match st.cx.object(m) {
        Object::Cons(c) => if c.car == sym(CLOSURE) {
            call(m, args, name, st, depth)
        } else {
            traced(call_forms(m, args, name, st, depth), name, args)
        },
        _ => call(m, args, name, st, depth),
    }
}

/// The outcome of the form `(name args...)` where `name` is no special
/// form: a macro is called on the argument forms as they are and what it
/// gives is evaluated; a function is called on the values of the argument
/// forms, evaluated from left to right.
pub open spec fn eval_call(base: nat, name: Symbol, forms: Value, st: State, depth: nat) -> Outcome<
    Value,
>
    decreases depth, 7nat,
{
    match st.cx.follow_indirect(name) {
        Err(e) => fail(st, e),
        Ok(func) => match as_macro(st.cx, func) {
            Some(m) => match list_items(st.cx, forms, Seq::empty(), depth) {
                Err(e) => fail(st, e),
                Ok(args) => {
                    let expansion = call_macro(m, args, name.value, st, depth);
                    match expansion.res {
                        Err(e) => expansion,
                        Ok(form) => {
                            let out = eval_form(base, form, expansion.st.root(form), depth);
                            Outcome { st: out.st.unroot(st.cx.roots.len()), res: out.res }
                        },
                    }
                },
            },
            None => {
                let values = eval_args(base, forms, Seq::empty(), st, depth);
                let out = match values.res {
                    Err(e) => Outcome { st: values.st, res: Err(e) },
                    Ok(args) => call(func, args, name.value, values.st, depth),
                };
                Outcome { st: out.st.unroot(st.cx.roots.len()), res: out.res }
            },
        },
    }
}

/// `(funcall function arguments...)`.
pub open spec fn funcall(function: Value, arguments: Seq<Value>, st: State, depth: nat) -> Outcome<
    Value,
>
    decreases depth, 8nat,
{
    call(function, arguments, Value::nil_spec(), st, depth)
}

/// `(apply function arguments... list)`: the last argument is a list whose
/// elements are the last arguments of the call.
pub open spec fn apply(function: Value, arguments: Seq<Value>, st: State, depth: nat) -> Outcome<Value>
    decreases depth, 8nat,
{
    if arguments.len() == 0 {
        call(function, arguments, Value::nil_spec(), st, depth)
    } else {
        match list_items(st.cx, arguments.last(), arguments.drop_last(), depth) {
            Err(e) => fail(st, e),
            Ok(args) => call(function, args, Value::nil_spec(), st, depth),
        }
    }
}

/// `(macroexpand form)`: a form whose head names a macro gives what the
/// macro makes of the rest of the form; any other form gives itself. An
/// environment is not supported.
pub open spec fn macroexpand(form: Value, environment: Option<Value>, st: State, depth: nat) -> Outcome<
    Value,
>
    decreases depth, 8nat,
{
    if environment.is_some() {
        fail(st, Error::Unimplemented)
    } else {
        match st.cx.object(form) {
            Object::Cons(c) => match st.cx.object(c.car) {
                Object::Symbol(name) => match st.cx.follow_indirect(name) {
                    Err(_) => ok(st, form),
                    Ok(f) => match as_macro(st.cx, f) {
                        None => ok(st, form),
                        Some(m) => match list_items(st.cx, c.cdr, Seq::empty(), depth) {
                            Err(e) => fail(st, e),
                            Ok(args) => call_macro(m, args, c.car, st, depth),
                        },
                    },
                },
                _ => ok(st, form),
            },
            _ => ok(st, form),
        }
    }
}

/// The outcome of evaluating `form` with no lexical bindings in sight. It
/// begins with a collection, if one is due, with the form rooted.
pub open spec fn eval(form: Value, st: State, depth: nat) -> Outcome<Value>
    decreases depth, 8nat,
{
    let st1 = State { cx: st.cx.root(form).collect(st.env, false), ..st };
    let out = eval_form(st.env.lexical.len(), form, st1, depth);
    Outcome { st: out.st.unroot(st.cx.roots.len()), res: out.res }
}

} // verus!
