//! The evaluator: a recursive walk over forms.
use crate::cell::SubrFn;
use crate::cell::SUBR_APPLY;
use crate::cell::SUBR_EVAL;
use crate::cell::SUBR_FUNCALL;
use crate::context::Cons;
use crate::context::Context;
use crate::context::Object;
use crate::env::Environment;
use crate::error::Error;
use crate::error::EvalError;
use crate::error::Type;
use crate::list::arg_count;
use crate::list::count_list;
use crate::list::is_list;
use crate::list::items_view;
use crate::list::lift;
use crate::list::list_from;
use crate::list::list_items;
use crate::list::shown;
use crate::list::split;
use crate::root::Rooted;
use crate::semantics;
use crate::semantics::ArgList;
use crate::semantics::Outcome;
use crate::semantics::State;
use crate::symbol::Symbol;
use crate::symbol::AND;
use crate::symbol::AND_OPTIONAL;
use crate::symbol::AND_REST;
use crate::symbol::CATCH;
use crate::symbol::CLOSURE;
use crate::symbol::COND;
use crate::symbol::CONDITION_CASE;
use crate::symbol::DEBUG;
use crate::symbol::DEFCONST;
use crate::symbol::DEFVAR;
use crate::symbol::ERROR;
use crate::symbol::FUNCTION;
use crate::symbol::IF;
use crate::symbol::INTERACTIVE;
use crate::symbol::LAMBDA;
use crate::symbol::LET;
use crate::symbol::LET_STAR;
use crate::symbol::MACRO;
use crate::symbol::OR;
use crate::symbol::PROG1;
use crate::symbol::PROG2;
use crate::symbol::PROGN;
use crate::symbol::QUOTE;
use crate::symbol::SETQ;
use crate::symbol::WHILE;
use crate::cell::copy_values;
use crate::eval::apply;
use crate::eval::funcall;
use crate::eval::macroexpand;
use crate::subr::arg;
use crate::subr::arity_error;
use crate::subr::arity_ok;
use crate::subr::calls_back;
use crate::subr::simple_subr;
use crate::subr::tail;
use crate::value::Value;
use vstd::string::StringExecFns;
use vstd::prelude::*;

verus! {

/// The state that an environment and a context make up.
pub open spec fn state(env: Environment, cx: Context) -> State {
    State { env: env@, cx: cx@ }
}

/// The state after a step of the evaluator, and what the step gave.
pub open spec fn outcome<T>(env: Environment, cx: Context, r: Result<T, EvalError>) -> Outcome<T> {
    Outcome { st: state(env, cx), res: shown(r) }
}

/// The same for a step that gives a vector.
pub open spec fn outcome_items(env: Environment, cx: Context, r: Result<Vec<Value>, EvalError>) -> Outcome<
    Seq<Value>,
> {
    Outcome {
        st: state(env, cx),
        res: match r {
            Ok(items) => Ok(items@),
            Err(e) => Err(e@),
        },
    }
}

/// The same for a step that gives symbols with their values.
pub open spec fn outcome_pairs(
    env: Environment,
    cx: Context,
    r: Result<Vec<(Symbol, Value)>, EvalError>,
) -> Outcome<Seq<(Symbol, Value)>> {
    Outcome {
        st: state(env, cx),
        res: match r {
            Ok(items) => Ok(items@),
            Err(e) => Err(e@),
        },
    }
}

/// The argument names of a function, as plain mathematical data.
pub open spec fn names_view(r: Result<(Vec<Symbol>, Vec<Symbol>, Option<Symbol>), Error>) -> Result<
    ArgList,
    Error,
> {
    match r {
        Ok((required, optional, rest)) => Ok(
            ArgList { required: required@, optional: optional@, rest },
        ),
        Err(e) => Err(e),
    }
}

/// The variables of a closure call with the body, as plain mathematical data.
pub open spec fn bound_view(r: Result<(Vec<Value>, Value), Error>) -> Result<(Seq<Value>, Value), Error> {
    match r {
        Ok((vars, body)) => Ok((vars@, body)),
        Err(e) => Err(e),
    }
}

/// The symbol with the given number, as a value.
pub fn sym(id: u64) -> (v: Value)
    requires
        id <= crate::value::MAX_INDEX,
    ensures
        v == semantics::sym(id),
{
    Value::symbol(id)
}

/// An evaluator. Its lexical bindings are those of the environment from
/// place `vars` on.
#[derive(Clone, Copy, Debug)]
pub struct Interpreter {
    pub vars: usize,
}

/// The pairs that the captured environment of a closure holds.
pub fn parse_closure_env(cx: &Context, obj: Value, depth: u64) -> (r: Result<Vec<Value>, Error>)
    ensures
        items_view(r) == semantics::parse_closure_env(cx@, obj, Seq::empty(), depth as nat),
{
    let mut env: Vec<Value> = Vec::new();
    let mut current = obj;
    let mut fuel = depth;
    loop
        invariant
            semantics::parse_closure_env(cx@, current, env@, fuel as nat)
                == semantics::parse_closure_env(cx@, obj, Seq::empty(), depth as nat),
        decreases fuel,
    {
        match cx.get(current) {
            Object::Cons(c) => match cx.get(c.car) {
                Object::Cons(_) => {
                    if fuel == 0 {
                        return Err(Error::DepthExceeded);
                    }
                    env.push(c.car);
                    current = c.cdr;
                    fuel -= 1;
                },
                Object::True => {
                    return Ok(env);
                },
                _ => {
                    return Err(Error::InvalidClosureEnvironmentMember(c.car));
                },
            },
            Object::Nil => {
                return Err(Error::ClosureEnvironmentUnterminated);
            },
            _ => {
                return Err(Error::TypeError { expected: Type::List, actual: current });
            },
        }
    }
}

/// The argument names that an argument list declares: the required ones,
/// the optional ones, and the one for the rest.
pub fn parse_arg_list(cx: &Context, bindings: Value, depth: u64) -> (r: Result<
    (Vec<Symbol>, Vec<Symbol>, Option<Symbol>),
    Error,
>)
    ensures
        names_view(r) == semantics::parse_arg_list(cx@, bindings, depth as nat),
{
    let mut required: Vec<Symbol> = Vec::new();
    let mut optional: Vec<Symbol> = Vec::new();
    let mut in_optional = false;
    let mut current = bindings;
    let mut fuel = depth;
    loop
        invariant
            semantics::parse_args(
                cx@,
                current,
                ArgList { required: required@, optional: optional@, rest: None },
                in_optional,
                fuel as nat,
            ) == semantics::parse_arg_list(cx@, bindings, depth as nat),
        decreases fuel,
    {
        match cx.get(current) {
            Object::Nil => {
                return Ok((required, optional, None));
            },
            Object::Cons(c) => match Symbol::try_from(c.car) {
                None => {
                    return Err(Error::TypeError { expected: Type::Symbol, actual: c.car });
                },
                Some(s) => {
                    if fuel == 0 {
                        return Err(Error::DepthExceeded);
                    }
                    let id = s.id();
                    if id == AND_OPTIONAL {
                        in_optional = true;
                    } else if id == AND_REST {
                        match cx.get(c.cdr) {
                            Object::Cons(c2) => match Symbol::try_from(c2.car) {
                                None => {
                                    return Err(
                                        Error::TypeError { expected: Type::Symbol, actual: c2.car },
                                    );
                                },
                                Some(rest) => {
                                    match cx.get(c2.cdr) {
                                        Object::Cons(_) => {
                                            return Err(Error::MultipleRestArguments);
                                        },
                                        _ => {
                                            return Ok((required, optional, Some(rest)));
                                        },
                                    }
                                },
                            },
                            _ => {
                                return Ok((required, optional, None));
                            },
                        }
                    } else if in_optional {
                        optional.push(s);
                    } else {
                        required.push(s);
                    }
                    current = c.cdr;
                    fuel -= 1;
                },
            },
            _ => {
                return Err(Error::TypeError { expected: Type::List, actual: current });
            },
        }
    }
}

/// Binds `names` to the arguments at the same places, or to `nil` past the
/// last argument: one new pair for each, after `vars`.
fn bind_names(cx: &mut Context, names: &Vec<Symbol>, args: &Vec<Value>, vars: &mut Vec<Value>) -> (r:
    Result<(), Error>)
    requires
        old(cx)@.wf(),
    ensures
        final(cx)@.wf(),
        semantics::bind_names(old(cx)@, names@, args@, 0, old(vars)@) == (
            final(cx)@,
            match r {
                Ok(_) => Ok::<Seq<Value>, Error>(final(vars)@),
                Err(e) => Err(e),
            },
        ),
{
    let mut k: usize = 0;
    while k < names.len()
        invariant
            cx@.wf(),
            semantics::bind_names(cx@, names@, args@, k as nat, vars@) == semantics::bind_names(
                old(cx)@,
                names@,
                args@,
                0,
                old(vars)@,
            ),
        decreases names@.len() - k,
    {
        let value = if k < args.len() {
            args[k]
        } else {
            Value::nil()
        };
        match cx.cons(names[k].value, value) {
            Err(e) => {
                return Err(e);
            },
            Ok(pair) => {
                vars.push(pair);
            },
        }
        k += 1;
    }
    Ok(())
}

/// The two vectors one after the other.
fn concat(a: &Vec<Symbol>, b: &Vec<Symbol>) -> (out: Vec<Symbol>)
    ensures
        out@ == a@ + b@,
{
    let mut out: Vec<Symbol> = Vec::new();
    let mut i: usize = 0;
    while i < a.len()
        invariant
            i <= a@.len(),
            out@ == a@.take(i as int),
        decreases a@.len() - i,
    {
        out.push(a[i]);
        assert(out@ =~= a@.take(i + 1));
        i += 1;
    }
    assert(a@.take(i as int) =~= a@);
    let mut j: usize = 0;
    while j < b.len()
        invariant
            j <= b@.len(),
            out@ == a@ + b@.take(j as int),
        decreases b@.len() - j,
    {
        out.push(b[j]);
        assert(out@ =~= a@ + b@.take(j + 1));
        j += 1;
    }
    assert(b@.take(j as int) =~= b@);
    out
}

/// Binds the arguments of a call to the names that `arg_list` declares, and
/// puts the new pairs after `vars`.
pub fn bind_args(
    cx: &mut Context,
    arg_list: Value,
    args: &Vec<Value>,
    vars: Vec<Value>,
    name: Value,
    depth: u64,
) -> (r: Result<Vec<Value>, Error>)
    requires
        old(cx)@.wf(),
    ensures
        final(cx)@.wf(),
        (final(cx)@, items_view(r)) == semantics::bind_args(
            old(cx)@,
            arg_list,
            args@,
            vars@,
            name,
            depth as nat,
        ),
{
    let (required, optional, rest) = match parse_arg_list(cx, arg_list, depth) {
        Err(e) => {
            return Err(e);
        },
        Ok(names) => names,
    };
    if args.len() < required.len() {
        return Err(
            Error::ArgError {
                expected: arg_count(required.len()),
                actual: arg_count(args.len()),
                name,
            },
        );
    }
    let positional = concat(&required, &optional);
    let mut vars = vars;
    match bind_names(cx, &positional, args, &mut vars) {
        Err(e) => {
            return Err(e);
        },
        Ok(_) => {},
    }
    match rest {
        Some(rest_name) => {
            let list = match list_from(cx, args, positional.len(), args.len(), Value::nil()) {
                Err(e) => {
                    return Err(e);
                },
                Ok(list) => list,
            };
            match cx.cons(rest_name.value, list) {
                Err(e) => Err(e),
                Ok(pair) => {
                    vars.push(pair);
                    Ok(vars)
                },
            }
        },
        None => {
            if args.len() > positional.len() {
                Err(
                    Error::ArgError {
                        expected: arg_count(positional.len()),
                        actual: arg_count(args.len()),
                        name,
                    },
                )
            } else {
                Ok(vars)
            }
        },
    }
}

/// Binds the variables of a closure call: the pairs of the captured
/// environment, then the arguments. Gives them with the body.
pub fn bind_variables(cx: &mut Context, forms: Value, args: &Vec<Value>, name: Value, depth: u64) -> (r:
    Result<(Vec<Value>, Value), Error>)
    requires
        old(cx)@.wf(),
    ensures
        final(cx)@.wf(),
        (final(cx)@, bound_view(r)) == semantics::bind_variables(
            old(cx)@,
            forms,
            args@,
            name,
            depth as nat,
        ),
{
    let (env, rest) = match split(cx, forms) {
        None => {
            return Err(Error::ClosureMissingEnvironment);
        },
        Some(parts) => parts,
    };
    let vars = match parse_closure_env(cx, env, depth) {
        Err(e) => {
            return Err(e);
        },
        Ok(vars) => vars,
    };
    let (arg_list, body) = match split(cx, rest) {
        None => {
            return Err(Error::ClosureMissingArguments);
        },
        Some(parts) => parts,
    };
    match bind_args(cx, arg_list, args, vars, name, depth) {
        Err(e) => Err(e),
        Ok(vars) => Ok((vars, body)),
    }
}

/// The function that a macro stands for, if `f` is a macro.
pub fn as_macro(cx: &Context, f: Value) -> (m: Option<Value>)
    ensures
        m == semantics::as_macro(cx@, f),
{
    match cx.get(f) {
        Object::Cons(c) => if c.car == sym(MACRO) {
            Some(c.cdr)
        } else {
            None
        },
        _ => None,
    }
}

/// Whether the condition of a handler is one that is handled.
pub fn check_condition(cx: &Context, condition: Value, depth: u64) -> (r: Result<(), Error>)
    ensures
        r == semantics::check_condition(cx@, condition, depth as nat),
{
    match cx.get(condition) {
        Object::Symbol(_) => if condition == sym(ERROR) {
            Ok(())
        } else {
            Err(Error::InvalidConditionHandler(condition))
        },
        Object::Cons(_) => {
            let mut current = condition;
            let mut fuel = depth;
            loop
                invariant
                    semantics::conditions(cx@, current, fuel as nat) == semantics::check_condition(
                        cx@,
                        condition,
                        depth as nat,
                    ),
                decreases fuel,
            {
                match split(cx, current) {
                    None => {
                        return Ok(());
                    },
                    Some((x, rest)) => {
                        if x != sym(DEBUG) && x != sym(ERROR) {
                            return Err(Error::InvalidConditionHandler(x));
                        }
                        if fuel == 0 {
                            return Err(Error::DepthExceeded);
                        }
                        current = rest;
                        fuel -= 1;
                    },
                }
            }
        },
        _ => Err(Error::InvalidConditionHandler(condition)),
    }
}

/// Binds `symbol` to `value` as `let` does: a dynamic variable has its old
/// value saved and takes the new one; any other symbol gets a new lexical
/// binding.
pub fn install(symbol: Symbol, value: Value, env: &mut Environment, cx: &mut Context) -> (r: Result<
    (),
    EvalError,
>)
    requires
        old(cx)@.wf(),
    ensures
        final(cx)@.wf(),
        outcome(*final(env), *final(cx), r) == semantics::install(
            symbol,
            value,
            state(*old(env), *old(cx)),
        ),
{
    match env.get_var(symbol) {
        Some(previous) => {
            env.save(symbol, previous);
            env.set_var(symbol, value);
            Ok(())
        },
        None => match cx.cons(symbol.value, value) {
            Err(e) => lift(Err(e)),
            Ok(pair) => {
                env.bind(pair);
                Ok(())
            },
        },
    }
}

/// Defines a variable: `defconst` sets the dynamic value, `defvar` only
/// where there is none yet.
pub fn define(symbol: Symbol, value: Value, constant: bool, env: &mut Environment)
    ensures
        final(env)@ == semantics::defined(symbol, value, constant, old(env)@),
{
    if constant || env.get_var(symbol).is_none() {
        env.set_var(symbol, value);
    }
}

impl Interpreter {
    /// The newest binding of `symbol` among the lexical bindings in sight.
    fn lookup(&self, symbol: Symbol, env: &Environment, cx: &Context) -> (b: Option<Value>)
        ensures
            b == semantics::lookup_lexical(
                cx@,
                env@.lexical,
                self.vars as nat,
                env@.lexical.len(),
                symbol,
            ),
    {
        let mut top = env.lexical.len();
        while top > self.vars
            invariant
                top <= env.lexical@.len(),
                semantics::lookup_lexical(cx@, env@.lexical, self.vars as nat, top as nat, symbol)
                    == semantics::lookup_lexical(
                    cx@,
                    env@.lexical,
                    self.vars as nat,
                    env@.lexical.len(),
                    symbol,
                ),
            decreases top,
        {
            let binding = env.lexical[top - 1];
            match cx.get(binding) {
                Object::Cons(c) => {
                    if c.car == symbol.value {
                        return Some(binding);
                    }
                },
                _ => {},
            }
            top -= 1;
        }
        None
    }

    /// The value of a variable: the symbol itself for a keyword, else the
    /// value of its newest lexical binding, else its dynamic value.
    pub fn var_ref(&self, symbol: Symbol, env: &Environment, cx: &Context) -> (r: Result<Value, EvalError>)
        ensures
            outcome(*env, *cx, r) == semantics::lift(
                state(*env, *cx),
                semantics::var_ref(self.vars as nat, symbol, state(*env, *cx)),
            ),
    {
        if cx.is_keyword(symbol) {
            Ok(symbol.value)
        } else {
            match self.lookup(symbol, env, cx) {
                Some(binding) => match cx.get(binding) {
                    Object::Cons(c) => Ok(c.cdr),
                    _ => lift(Err(Error::VoidVariable(symbol))),
                },
                None => match env.get_var(symbol) {
                    Some(v) => Ok(v),
                    None => lift(Err(Error::VoidVariable(symbol))),
                },
            }
        }
    }

    /// Assigns to a variable: its newest lexical binding takes the value, or
    /// else its dynamic value is set.
    pub fn var_set(&self, symbol: Symbol, value: Value, env: &mut Environment, cx: &mut Context) -> (r:
        Result<(), EvalError>)
        requires
            old(cx)@.wf(),
        ensures
            final(cx)@.wf(),
            outcome(*final(env), *final(cx), r) == semantics::var_set(
                self.vars as nat,
                symbol,
                value,
                state(*old(env), *old(cx)),
            ),
    {
        match self.lookup(symbol, env, cx) {
            Some(binding) => lift(cx.set_cdr(binding, value)),
            None => {
                env.set_var(symbol, value);
                Ok(())
            },
        }
    }

    /// `(quote x)` gives `x`.
    pub fn quote(&self, forms: Value, cx: &Context) -> (r: Result<Value, EvalError>)
        ensures
            shown(r) == semantics::lifted(semantics::quote(cx@, forms)),
    {
        if !is_list(cx, forms) {
            return lift(Err(Error::TypeError { expected: Type::List, actual: forms }));
        }
        let n = count_list(cx, forms);
        if n != 1 {
            return lift(
                Err(Error::ArgError { expected: 1, actual: arg_count(n), name: sym(QUOTE) }),
            );
        }
        match split(cx, forms) {
            Some((x, _)) => Ok(x),
            None => lift(Err(Error::TypeError { expected: Type::List, actual: forms })),
        }
    }

    /// `(function f)`: a `lambda` form becomes a closure over the lexical
    /// bindings in sight, anything else is given as it is.
    pub fn eval_function(&self, forms: Value, env: &Environment, cx: &mut Context) -> (r: Result<
        Value,
        EvalError,
    >)
        requires
            old(cx)@.wf(),
        ensures
            final(cx)@.wf(),
            outcome(*env, *final(cx), r) == semantics::eval_function(
                self.vars as nat,
                forms,
                state(*env, *old(cx)),
            ),
    {
        if !is_list(cx, forms) {
            return lift(Err(Error::TypeError { expected: Type::List, actual: forms }));
        }
        let n = count_list(cx, forms);
        if n != 1 {
            return lift(
                Err(Error::ArgError { expected: 1, actual: arg_count(n), name: sym(FUNCTION) }),
            );
        }
        let form = match split(cx, forms) {
            Some((form, _)) => form,
            None => {
                return lift(Err(Error::TypeError { expected: Type::List, actual: forms }));
            },
        };
        match cx.get(form) {
            Object::Cons(f) => {
                if f.car == sym(LAMBDA) {
                    let end = match cx.cons(Value::truth(), Value::nil()) {
                        Err(e) => {
                            return lift(Err(e));
                        },
                        Ok(end) => end,
                    };
                    let captured = match list_from(
                        cx,
                        &env.lexical,
                        self.vars,
                        env.lexical.len(),
                        end,
                    ) {
                        Err(e) => {
                            return lift(Err(e));
                        },
                        Ok(list) => list,
                    };
                    let body = match cx.cons(captured, f.cdr) {
                        Err(e) => {
                            return lift(Err(e));
                        },
                        Ok(body) => body,
                    };
                    lift(cx.cons(sym(CLOSURE), body))
                } else {
                    Ok(form)
                }
            },
            _ => Ok(form),
        }
    }
}


/// The first form of a list with the one after it, if there is one, and
/// the rest behind both.
pub fn pairs(cx: &Context, forms: Value) -> (r: Option<(Value, Option<(Value, Value)>)>)
    ensures
        r == match semantics::split(cx@, forms) {
            None => None,
            Some((first, rest)) => Some((first, semantics::split(cx@, rest))),
        },
{
    match split(cx, forms) {
        None => None,
        Some((first, rest)) => Some((first, split(cx, rest))),
    }
}

/// Adds `vars` to the lexical bindings, in order.
fn bind_all(env: &mut Environment, vars: &Vec<Value>)
    ensures
        final(env)@ == semantics::with_bindings(old(env)@, vars@),
{
    let mut i: usize = 0;
    assert(env@.lexical =~= old(env)@.lexical + vars@.take(0));
    while i < vars.len()
        invariant
            i <= vars@.len(),
            env@ == semantics::with_bindings(old(env)@, vars@.take(i as int)),
        decreases vars@.len() - i,
    {
        env.bind(vars[i]);
        assert(env@.lexical =~= old(env)@.lexical + vars@.take(i + 1));
        i += 1;
    }
    assert(vars@.take(i as int) =~= vars@);
}

/// The result with its error, if it is one, passed through the call of
/// `name` on `args`.
fn traced(r: Result<Value, EvalError>, name: Value, args: &Vec<Value>) -> (out: Result<Value, EvalError>)
    ensures
        shown(out) == semantics::traced_result(shown(r), name, args@),
{
    match r {
        Ok(v) => Ok(v),
        Err(e) => Err(e.add_trace(name, args)),
    }
}

/// Binds `pairs` as `let` does, in order.
fn install_all(pairs: &Vec<(Symbol, Value)>, env: &mut Environment, cx: &mut Context) -> (r: Result<
    (),
    EvalError,
>)
    requires
        old(cx)@.wf(),
    ensures
        final(cx)@.wf(),
        outcome(*final(env), *final(cx), r) == semantics::install_all(
            pairs@,
            0,
            state(*old(env), *old(cx)),
        ),
{
    let mut k: usize = 0;
    while k < pairs.len()
        invariant
            cx@.wf(),
            semantics::install_all(pairs@, k as nat, state(*env, *cx)) == semantics::install_all(
                pairs@,
                0,
                state(*old(env), *old(cx)),
            ),
        decreases pairs@.len() - k,
    {
        match install(pairs[k].0, pairs[k].1, env, cx) {
            Err(e) => {
                return Err(e);
            },
            Ok(_) => {},
        }
        k += 1;
    }
    Ok(())
}

/// Runs the body of a closure or macro of the shape `(env args . body)` on
/// `args`.
pub fn call_forms(
    forms: Value,
    args: &Vec<Value>,
    name: Value,
    env: &mut Environment,
    cx: &mut Context,
    depth: u64,
) -> (r: Result<Value, EvalError>)
    requires
        old(cx)@.wf(),
    ensures
        final(cx)@.wf(),
        outcome(*final(env), *final(cx), r) == semantics::call_forms(
            forms,
            args@,
            name,
            state(*old(env), *old(cx)),
            depth as nat,
        ),
    decreases depth, 3nat,
{
    let (vars, body) = match bind_variables(cx, forms, args, name, depth) {
        Err(e) => {
            return lift(Err(e));
        },
        Ok(bound) => bound,
    };
    let base = env.lexical.len();
    bind_all(env, &vars);
    let inner = Interpreter { vars: base };
    let r = inner.implicit_progn(body, env, cx, depth);
    env.unbind(base);
    r
}

/// Calls the closure `closure`, whose cell holds `c`, on `args`.
pub fn call_closure(
    closure: Value,
    c: Cons,
    args: &Vec<Value>,
    name: Value,
    env: &mut Environment,
    cx: &mut Context,
    depth: u64,
) -> (r: Result<Value, EvalError>)
    requires
        old(cx)@.wf(),
    ensures
        final(cx)@.wf(),
        outcome(*final(env), *final(cx), r) == semantics::call_closure(
            closure,
            c,
            args@,
            name,
            state(*old(env), *old(cx)),
            depth as nat,
        ),
    decreases depth, 4nat,
{
    let n = cx.rooted();
    cx.roots.push(Rooted::Scalar(closure));
    cx.roots.push(Rooted::Sequence(copy_values(args)));
    cx.garbage_collect(false, env);
    let r = if c.car != sym(CLOSURE) {
        lift(Err(Error::TypeError { expected: Type::Func, actual: c.car }))
    } else {
        call_forms(c.cdr, args, name, env, cx, depth)
    };
    cx.unroot(n);
    r
}

/// Calls a built-in on `args`.
pub fn call_subr(
    f: SubrFn,
    args: &Vec<Value>,
    name: Value,
    env: &mut Environment,
    cx: &mut Context,
    depth: u64,
) -> (r: Result<Value, EvalError>)
    requires
        old(cx)@.wf(),
    ensures
        final(cx)@.wf(),
        outcome(*final(env), *final(cx), r) == semantics::call_subr(
            f,
            args@,
            name,
            state(*old(env), *old(cx)),
            depth as nat,
        ),
    decreases depth, 4nat,
{
    if !arity_ok(f, args.len()) {
        lift(Err(arity_error(f, args.len(), name)))
    } else if !calls_back(f) {
        simple_subr(f, args, env, cx, depth)
    } else if depth == 0 {
        lift(Err(Error::DepthExceeded))
    } else if f.code == SUBR_FUNCALL {
        let rest = tail(args);
        funcall(arg(args, 0), &rest, env, cx, depth - 1)
    } else if f.code == SUBR_APPLY {
        let rest = tail(args);
        apply(arg(args, 0), &rest, env, cx, depth - 1)
    } else if f.code == SUBR_EVAL {
        eval(arg(args, 0), None, env, cx, depth - 1)
    } else {
        let environment = if arg(args, 1) != Value::nil() {
            Some(arg(args, 1))
        } else {
            None
        };
        macroexpand(arg(args, 0), environment, env, cx, depth - 1)
    }
}

/// Calls `func` on `args` under the name `name`: a symbol, or `nil` for an
/// anonymous function.
pub fn call(
    func: Value,
    args: &Vec<Value>,
    name: Value,
    env: &mut Environment,
    cx: &mut Context,
    depth: u64,
) -> (r: Result<Value, EvalError>)
    requires
        old(cx)@.wf(),
    ensures
        final(cx)@.wf(),
        outcome(*final(env), *final(cx), r) == semantics::call(
            func,
            args@,
            name,
            state(*old(env), *old(cx)),
            depth as nat,
        ),
    decreases depth, 5nat,
{
    match cx.get(func) {
        Object::SubrFn(f) => {
            let r = call_subr(f, args, name, env, cx, depth);
            traced(r, name, args)
        },
        Object::Cons(c) => {
            let r = call_closure(func, c, args, name, env, cx, depth);
            traced(r, name, args)
        },
        Object::Symbol(s) => match cx.follow_indirect(s) {
            Err(e) => lift(Err(e)),
            Ok(f) => {
                if depth == 0 {
                    lift(Err(Error::DepthExceeded))
                } else {
                    call(f, args, name, env, cx, depth - 1)
                }
            },
        },
        Object::LispFn => lift(Err(Error::InvalidFunction(func))),
        _ => lift(Err(Error::TypeError { expected: Type::Func, actual: func })),
    }
}

/// Calls the function `m` that a macro stands for on `args`.
pub fn call_macro(
    m: Value,
    args: &Vec<Value>,
    name: Value,
    env: &mut Environment,
    cx: &mut Context,
    depth: u64,
) -> (r: Result<Value, EvalError>)
    requires
        old(cx)@.wf(),
    ensures
        final(cx)@.wf(),
        outcome(*final(env), *final(cx), r) == semantics::call_macro(
            m,
            args@,
            name,
            state(*old(env), *old(cx)),
            depth as nat,
        ),
    decreases depth, 6nat,
{
    match cx.get(m) {
        Object::Cons(c) => {
            if c.car == sym(CLOSURE) {
                call(m, args, name, env, cx, depth)
            } else {
                let r = call_forms(m, args, name, env, cx, depth);
                traced(r, name, args)
            }
        },
        _ => call(m, args, name, env, cx, depth),
    }
}

/// Evaluates `form` with no lexical bindings in sight. `lexical` is
/// accepted and ignored: binding is always lexical.
pub fn eval(form: Value, lexical: Option<()>, env: &mut Environment, cx: &mut Context, depth: u64) -> (r:
    Result<Value, EvalError>)
    requires
        old(cx)@.wf(),
    ensures
        final(cx)@.wf(),
        outcome(*final(env), *final(cx), r) == semantics::eval(
            form,
            state(*old(env), *old(cx)),
            depth as nat,
        ),
    decreases depth, 8nat,
{
    let n = cx.rooted();
    cx.root(form);
    cx.garbage_collect(false, env);
    let interpreter = Interpreter { vars: env.lexical.len() };
    let r = interpreter.eval_form(form, env, cx, depth);
    cx.unroot(n);
    r
}

impl Interpreter {
    /// Evaluates `form`.
    pub fn eval_form(&self, form: Value, env: &mut Environment, cx: &mut Context, depth: u64) -> (r:
        Result<Value, EvalError>)
        requires
            old(cx)@.wf(),
        ensures
            final(cx)@.wf(),
            outcome(*final(env), *final(cx), r) == semantics::eval_form(
                self.vars as nat,
                form,
                state(*old(env), *old(cx)),
                depth as nat,
            ),
        decreases depth, 0nat,
    {
        if depth == 0 {
            return lift(Err(Error::DepthExceeded));
        }
        match cx.get(form) {
            Object::Symbol(s) => self.var_ref(s, env, cx),
            Object::Cons(c) => self.eval_sexp(c, env, cx, depth - 1),
            _ => Ok(form),
        }
    }

    /// Evaluates the form whose cons cell holds `c`.
    pub fn eval_sexp(&self, c: Cons, env: &mut Environment, cx: &mut Context, depth: u64) -> (r: Result<
        Value,
        EvalError,
    >)
        requires
            old(cx)@.wf(),
        ensures
            final(cx)@.wf(),
            outcome(*final(env), *final(cx), r) == semantics::eval_sexp(
                self.vars as nat,
                c,
                state(*old(env), *old(cx)),
                depth as nat,
            ),
        decreases depth, 20nat,
    {
        let n = cx.rooted();
        let head = cx.get(c.car);
        cx.root(c.cdr);
        let r = match head {
            Object::Symbol(s) => self.dispatch(s, c.cdr, env, cx, depth),
            _ => lift(Err(Error::InvalidFunction(c.car))),
        };
        cx.unroot(n);
        r
    }

    fn dispatch(&self, s: Symbol, forms: Value, env: &mut Environment, cx: &mut Context, depth: u64) -> (r:
        Result<Value, EvalError>)
        requires
            old(cx)@.wf(),
        ensures
            final(cx)@.wf(),
            outcome(*final(env), *final(cx), r) == semantics::dispatch(
                self.vars as nat,
                s,
                forms,
                state(*old(env), *old(cx)),
                depth as nat,
            ),
        decreases depth, 19nat,
    {
        let id = s.id();
        if id == QUOTE {
            self.quote(forms, cx)
        } else if id == LET {
            self.eval_let(forms, true, env, cx, depth)
        } else if id == LET_STAR {
            self.eval_let(forms, false, env, cx, depth)
        } else if id == IF {
            self.eval_if(forms, env, cx, depth)
        } else if id == AND {
            self.eval_and(forms, env, cx, depth)
        } else if id == OR {
            self.eval_or(forms, env, cx, depth)
        } else if id == COND {
            self.eval_cond(forms, env, cx, depth)
        } else if id == WHILE {
            self.eval_while(forms, env, cx, depth)
        } else if id == PROGN {
            self.eval_progn(forms, env, cx, depth)
        } else if id == PROG1 {
            self.eval_progx(forms, 1, env, cx, depth)
        } else if id == PROG2 {
            self.eval_progx(forms, 2, env, cx, depth)
        } else if id == SETQ {
            self.setq(forms, env, cx, depth)
        } else if id == DEFVAR {
            self.defvar(forms, false, env, cx, depth)
        } else if id == DEFCONST {
            self.defvar(forms, true, env, cx, depth)
        } else if id == FUNCTION {
            self.eval_function(forms, env, cx)
        } else if id == INTERACTIVE {
            Ok(Value::nil())
        } else if id == CATCH {
            self.catch(forms, env, cx, depth)
        } else if id == CONDITION_CASE {
            self.condition_case(forms, env, cx, depth)
        } else {
            self.eval_call(s, forms, env, cx, depth)
        }
    }

    /// `(catch tag body...)`: evaluates the tag, then the body.
    pub fn catch(&self, forms: Value, env: &mut Environment, cx: &mut Context, depth: u64) -> (r: Result<
        Value,
        EvalError,
    >)
        requires
            old(cx)@.wf(),
        ensures
            final(cx)@.wf(),
            outcome(*final(env), *final(cx), r) == semantics::catch(
                self.vars as nat,
                forms,
                state(*old(env), *old(cx)),
                depth as nat,
            ),
        decreases depth, 3nat,
    {
        let (tag, body) = match split(cx, forms) {
            None => {
                return lift(Err(Error::ArgError { expected: 1, actual: 0, name: sym(CATCH) }));
            },
            Some(parts) => parts,
        };
        let n = cx.rooted();
        cx.root(body);
        let r = self.eval_form(tag, env, cx, depth);
        cx.unroot(n);
        match r {
            Err(e) => Err(e),
            Ok(_) => self.implicit_progn(body, env, cx, depth),
        }
    }

    /// `(defvar x [value])`, and `(defconst x [value])` where `constant` is
    /// set.
    pub fn defvar(&self, forms: Value, constant: bool, env: &mut Environment, cx: &mut Context, depth: u64) -> (r:
        Result<Value, EvalError>)
        requires
            old(cx)@.wf(),
        ensures
            final(cx)@.wf(),
            outcome(*final(env), *final(cx), r) == semantics::defvar(
                self.vars as nat,
                forms,
                constant,
                state(*old(env), *old(cx)),
                depth as nat,
            ),
        decreases depth, 3nat,
    {
        let (x, rest) = match split(cx, forms) {
            None => {
                return lift(Err(Error::ArgError { expected: 1, actual: 0, name: sym(DEFVAR) }));
            },
            Some(parts) => parts,
        };
        let name = match Symbol::try_from(x) {
            None => {
                return lift(Err(Error::TypeError { expected: Type::Symbol, actual: x }));
            },
            Some(name) => name,
        };
        match split(cx, rest) {
            Some((form, _)) => {
                match self.eval_form(form, env, cx, depth) {
                    Err(e) => Err(e),
                    Ok(v) => {
                        define(name, v, constant, env);
                        Ok(v)
                    },
                }
            },
            None => {
                define(name, Value::nil(), constant, env);
                Ok(Value::nil())
            },
        }
    }

    /// The form `(name args...)` where `name` is no special form.
    pub fn eval_call(&self, name: Symbol, forms: Value, env: &mut Environment, cx: &mut Context, depth: u64) -> (r:
        Result<Value, EvalError>)
        requires
            old(cx)@.wf(),
        ensures
            final(cx)@.wf(),
            outcome(*final(env), *final(cx), r) == semantics::eval_call(
                self.vars as nat,
                name,
                forms,
                state(*old(env), *old(cx)),
                depth as nat,
            ),
        decreases depth, 7nat,
    {
        let func = match cx.follow_indirect(name) {
            Err(e) => {
                return lift(Err(e));
            },
            Ok(func) => func,
        };
        let n = cx.rooted();
        match as_macro(cx, func) {
            Some(m) => {
                let args = match list_items(cx, forms, Vec::new(), depth) {
                    Err(e) => {
                        return lift(Err(e));
                    },
                    Ok(args) => args,
                };
                match call_macro(m, &args, name.value, env, cx, depth) {
                    Err(e) => Err(e),
                    Ok(form) => {
                        cx.root(form);
                        let r = self.eval_form(form, env, cx, depth);
                        cx.unroot(n);
                        r
                    },
                }
            },
            None => {
                let r = match self.eval_args(forms, env, cx, depth) {
                    Err(e) => Err(e),
                    Ok(args) => call(func, &args, name.value, env, cx, depth),
                };
                cx.unroot(n);
                r
            },
        }
    }

    /// The values of the argument forms, in order. Each value stays rooted.
    pub fn eval_args(&self, forms: Value, env: &mut Environment, cx: &mut Context, depth: u64) -> (r:
        Result<Vec<Value>, EvalError>)
        requires
            old(cx)@.wf(),
        ensures
            final(cx)@.wf(),
            outcome_items(*final(env), *final(cx), r) == semantics::eval_args(
                self.vars as nat,
                forms,
                Seq::empty(),
                state(*old(env), *old(cx)),
                depth as nat,
            ),
        decreases depth, 2nat,
    {
        let mut args: Vec<Value> = Vec::new();
        let mut current = forms;
        let mut fuel = depth;
        loop
            invariant
                cx@.wf(),
                fuel <= depth,
                semantics::eval_args(self.vars as nat, current, args@, state(*env, *cx), fuel as nat)
                    == semantics::eval_args(
                    self.vars as nat,
                    forms,
                    Seq::empty(),
                    state(*old(env), *old(cx)),
                    depth as nat,
                ),
            decreases fuel,
        {
            match split(cx, current) {
                None => {
                    return Ok(args);
                },
                Some((form, rest)) => {
                    if fuel == 0 {
                        return Err(EvalError::new_error(Error::DepthExceeded));
                    }
                    let n = cx.rooted();
                    cx.root(rest);
                    let r = self.eval_form(form, env, cx, fuel - 1);
                    cx.unroot(n);
                    match r {
                        Err(e) => {
                            return Err(e);
                        },
                        Ok(v) => {
                            args.push(v);
                            cx.root(v);
                            current = rest;
                            fuel -= 1;
                        },
                    }
                },
            }
        }
    }

    /// `(prog1 forms...)` and `(prog2 forms...)`: evaluates every form and
    /// gives the value of the `prog_num`-th.
    pub fn eval_progx(&self, forms: Value, prog_num: u16, env: &mut Environment, cx: &mut Context, depth: u64) -> (r:
        Result<Value, EvalError>)
        requires
            old(cx)@.wf(),
        ensures
            final(cx)@.wf(),
            outcome(*final(env), *final(cx), r) == semantics::eval_progx(
                self.vars as nat,
                forms,
                prog_num,
                0,
                None,
                state(*old(env), *old(cx)),
                depth as nat,
            ),
        decreases depth, 3nat,
    {
        let mut count: u64 = 0;
        let mut kept: Option<Value> = None;
        let mut current = forms;
        let mut fuel = depth;
        loop
            invariant
                cx@.wf(),
                fuel <= depth,
                count + fuel <= u64::MAX,
                semantics::eval_progx(
                    self.vars as nat,
                    current,
                    prog_num,
                    count as nat,
                    kept,
                    state(*env, *cx),
                    fuel as nat,
                ) == semantics::eval_progx(
                    self.vars as nat,
                    forms,
                    prog_num,
                    0,
                    None,
                    state(*old(env), *old(cx)),
                    depth as nat,
                ),
            decreases fuel,
        {
            match split(cx, current) {
                None => {
                    return match kept {
                        Some(v) => Ok(v),
                        None => {
                            let name = if prog_num == 1 {
                                sym(PROG1)
                            } else if prog_num == 2 {
                                sym(PROG2)
                            } else {
                                sym(PROGN)
                            };
                            lift(
                                Err(
                                    Error::ArgError {
                                        expected: prog_num,
                                        actual: (count % 65536) as u16,
                                        name,
                                    },
                                ),
                            )
                        },
                    };
                },
                Some((form, rest)) => {
                    if fuel == 0 {
                        return lift(Err(Error::DepthExceeded));
                    }
                    let n = cx.rooted();
                    cx.root(rest);
                    match kept {
                        Some(k) => {
                            cx.root(k);
                        },
                        None => {},
                    }
                    let r = self.eval_form(form, env, cx, fuel - 1);
                    cx.unroot(n);
                    match r {
                        Err(e) => {
                            return Err(e);
                        },
                        Ok(v) => {
                            count += 1;
                            if count == prog_num as u64 {
                                kept = Some(v);
                            }
                            current = rest;
                            fuel -= 1;
                        },
                    }
                },
            }
        }
    }

    /// `(progn forms...)`.
    pub fn eval_progn(&self, forms: Value, env: &mut Environment, cx: &mut Context, depth: u64) -> (r:
        Result<Value, EvalError>)
        requires
            old(cx)@.wf(),
        ensures
            final(cx)@.wf(),
            outcome(*final(env), *final(cx), r) == semantics::eval_progn(
                self.vars as nat,
                forms,
                state(*old(env), *old(cx)),
                depth as nat,
            ),
        decreases depth, 3nat,
    {
        self.implicit_progn(forms, env, cx, depth)
    }

    /// `(while cond body...)`.
    pub fn eval_while(&self, forms: Value, env: &mut Environment, cx: &mut Context, depth: u64) -> (r:
        Result<Value, EvalError>)
        requires
            old(cx)@.wf(),
        ensures
            final(cx)@.wf(),
            outcome(*final(env), *final(cx), r) == semantics::eval_while(
                self.vars as nat,
                forms,
                state(*old(env), *old(cx)),
                depth as nat,
            ),
        decreases depth, 4nat,
    {
        let (condition, body) = match cx.get(forms) {
            Object::Cons(c) => (c.car, c.cdr),
            Object::Nil => {
                return lift(Err(Error::ArgError { expected: 1, actual: 0, name: sym(WHILE) }));
            },
            _ => {
                return lift(Err(Error::TypeError { expected: Type::List, actual: forms }));
            },
        };
        let n = cx.rooted();
        cx.root(condition);
        cx.root(body);
        let r = self.while_loop(condition, body, env, cx, depth);
        cx.unroot(n);
        r
    }

    fn while_loop(&self, condition: Value, body: Value, env: &mut Environment, cx: &mut Context, depth: u64) -> (r:
        Result<Value, EvalError>)
        requires
            old(cx)@.wf(),
        ensures
            final(cx)@.wf(),
            outcome(*final(env), *final(cx), r) == semantics::while_loop(
                self.vars as nat,
                condition,
                body,
                state(*old(env), *old(cx)),
                depth as nat,
            ),
        decreases depth, 3nat,
    {
        let mut fuel = depth;
        loop
            invariant
                cx@.wf(),
                fuel <= depth,
                semantics::while_loop(self.vars as nat, condition, body, state(*env, *cx), fuel as nat)
                    == semantics::while_loop(
                    self.vars as nat,
                    condition,
                    body,
                    state(*old(env), *old(cx)),
                    depth as nat,
                ),
            decreases fuel,
        {
            if fuel == 0 {
                return lift(Err(Error::DepthExceeded));
            }
            match self.eval_form(condition, env, cx, fuel - 1) {
                Err(e) => {
                    return Err(e);
                },
                Ok(v) => {
                    if v.is_nil() {
                        return Ok(v);
                    }
                },
            }
            match self.implicit_progn(body, env, cx, fuel - 1) {
                Err(e) => {
                    return Err(e);
                },
                Ok(_) => {},
            }
            fuel -= 1;
        }
    }

    /// `(cond clauses...)`.
    pub fn eval_cond(&self, forms: Value, env: &mut Environment, cx: &mut Context, depth: u64) -> (r:
        Result<Value, EvalError>)
        requires
            old(cx)@.wf(),
        ensures
            final(cx)@.wf(),
            outcome(*final(env), *final(cx), r) == semantics::eval_cond(
                self.vars as nat,
                forms,
                state(*old(env), *old(cx)),
                depth as nat,
            ),
        decreases depth, 3nat,
    {
        let mut current = forms;
        let mut fuel = depth;
        loop
            invariant
                cx@.wf(),
                fuel <= depth,
                semantics::eval_cond(self.vars as nat, current, state(*env, *cx), fuel as nat)
                    == semantics::eval_cond(
                    self.vars as nat,
                    forms,
                    state(*old(env), *old(cx)),
                    depth as nat,
                ),
            decreases fuel,
        {
            let (clause, rest) = match split(cx, current) {
                None => {
                    return Ok(Value::nil());
                },
                Some(parts) => parts,
            };
            if fuel == 0 {
                return lift(Err(Error::DepthExceeded));
            }
            match split(cx, clause) {
                None => {},
                Some((test, body)) => {
                    let n = cx.rooted();
                    cx.root(rest);
                    cx.root(body);
                    let r = self.eval_form(test, env, cx, fuel - 1);
                    cx.unroot(n);
                    match r {
                        Err(e) => {
                            return Err(e);
                        },
                        Ok(v) => {
                            if !v.is_nil() {
                                if split(cx, body).is_none() {
                                    return Ok(v);
                                } else {
                                    return self.implicit_progn(body, env, cx, fuel - 1);
                                }
                            }
                        },
                    }
                },
            }
            current = rest;
            fuel -= 1;
        }
    }

    /// `(and forms...)`.
    pub fn eval_and(&self, forms: Value, env: &mut Environment, cx: &mut Context, depth: u64) -> (r:
        Result<Value, EvalError>)
        requires
            old(cx)@.wf(),
        ensures
            final(cx)@.wf(),
            outcome(*final(env), *final(cx), r) == semantics::eval_and(
                self.vars as nat,
                forms,
                Value::true_spec(),
                state(*old(env), *old(cx)),
                depth as nat,
            ),
        decreases depth, 2nat,
    {
        let mut last = Value::truth();
        let mut current = forms;
        let mut fuel = depth;
        loop
            invariant
                cx@.wf(),
                fuel <= depth,
                semantics::eval_and(self.vars as nat, current, last, state(*env, *cx), fuel as nat)
                    == semantics::eval_and(
                    self.vars as nat,
                    forms,
                    Value::true_spec(),
                    state(*old(env), *old(cx)),
                    depth as nat,
                ),
            decreases fuel,
        {
            let (form, rest) = match split(cx, current) {
                None => {
                    return Ok(last);
                },
                Some(parts) => parts,
            };
            if fuel == 0 {
                return lift(Err(Error::DepthExceeded));
            }
            let n = cx.rooted();
            cx.root(rest);
            let r = self.eval_form(form, env, cx, fuel - 1);
            cx.unroot(n);
            match r {
                Err(e) => {
                    return Err(e);
                },
                Ok(v) => {
                    if v.is_nil() {
                        return Ok(v);
                    }
                    last = v;
                },
            }
            current = rest;
            fuel -= 1;
        }
    }

    /// `(or forms...)`.
    pub fn eval_or(&self, forms: Value, env: &mut Environment, cx: &mut Context, depth: u64) -> (r:
        Result<Value, EvalError>)
        requires
            old(cx)@.wf(),
        ensures
            final(cx)@.wf(),
            outcome(*final(env), *final(cx), r) == semantics::eval_or(
                self.vars as nat,
                forms,
                state(*old(env), *old(cx)),
                depth as nat,
            ),
        decreases depth, 2nat,
    {
        let mut current = forms;
        let mut fuel = depth;
        loop
            invariant
                cx@.wf(),
                fuel <= depth,
                semantics::eval_or(self.vars as nat, current, state(*env, *cx), fuel as nat)
                    == semantics::eval_or(
                    self.vars as nat,
                    forms,
                    state(*old(env), *old(cx)),
                    depth as nat,
                ),
            decreases fuel,
        {
            let (form, rest) = match split(cx, current) {
                None => {
                    return Ok(Value::nil());
                },
                Some(parts) => parts,
            };
            if fuel == 0 {
                return lift(Err(Error::DepthExceeded));
            }
            let n = cx.rooted();
            cx.root(rest);
            let r = self.eval_form(form, env, cx, fuel - 1);
            cx.unroot(n);
            match r {
                Err(e) => {
                    return Err(e);
                },
                Ok(v) => {
                    if !v.is_nil() {
                        return Ok(v);
                    }
                },
            }
            current = rest;
            fuel -= 1;
        }
    }

    /// `(if c t e...)`.
    pub fn eval_if(&self, forms: Value, env: &mut Environment, cx: &mut Context, depth: u64) -> (r: Result<
        Value,
        EvalError,
    >)
        requires
            old(cx)@.wf(),
        ensures
            final(cx)@.wf(),
            outcome(*final(env), *final(cx), r) == semantics::eval_if(
                self.vars as nat,
                forms,
                state(*old(env), *old(cx)),
                depth as nat,
            ),
        decreases depth, 3nat,
    {
        let (condition, rest) = match split(cx, forms) {
            None => {
                return lift(Err(Error::ArgError { expected: 2, actual: 0, name: sym(IF) }));
            },
            Some(parts) => parts,
        };
        let (then, otherwise) = match split(cx, rest) {
            None => {
                return lift(Err(Error::ArgError { expected: 2, actual: 1, name: sym(IF) }));
            },
            Some(parts) => parts,
        };
        let n = cx.rooted();
        cx.root(then);
        cx.root(otherwise);
        let r = self.eval_form(condition, env, cx, depth);
        cx.unroot(n);
        match r {
            Err(e) => Err(e),
            Ok(v) => {
                if !v.is_nil() {
                    self.eval_form(then, env, cx, depth)
                } else {
                    self.implicit_progn(otherwise, env, cx, depth)
                }
            },
        }
    }

    /// `(setq var val ...)`.
    pub fn setq(&self, forms: Value, env: &mut Environment, cx: &mut Context, depth: u64) -> (r: Result<
        Value,
        EvalError,
    >)
        requires
            old(cx)@.wf(),
        ensures
            final(cx)@.wf(),
            outcome(*final(env), *final(cx), r) == semantics::setq(
                self.vars as nat,
                forms,
                0,
                Value::nil_spec(),
                state(*old(env), *old(cx)),
                depth as nat,
            ),
        decreases depth, 3nat,
    {
        let mut count: u128 = 0;
        let mut last = Value::nil();
        let mut current = forms;
        let mut fuel = depth;
        loop
            invariant
                cx@.wf(),
                fuel <= depth,
                count + 2 * fuel <= 2 * depth,
                semantics::setq(
                    self.vars as nat,
                    current,
                    count as nat,
                    last,
                    state(*env, *cx),
                    fuel as nat,
                ) == semantics::setq(
                    self.vars as nat,
                    forms,
                    0,
                    Value::nil_spec(),
                    state(*old(env), *old(cx)),
                    depth as nat,
                ),
            decreases fuel,
        {
            let (var, second) = match pairs(cx, current) {
                None => {
                    return if count < 2 {
                        lift(Err(Error::ArgError { expected: 2, actual: 0, name: sym(SETQ) }))
                    } else {
                        Ok(last)
                    };
                },
                Some(parts) => parts,
            };
            let (form, rest) = match second {
                None => {
                    return lift(
                        Err(
                            Error::ArgError {
                                expected: (count % 65536) as u16,
                                actual: ((count + 1) % 65536) as u16,
                                name: sym(SETQ),
                            },
                        ),
                    );
                },
                Some(parts) => parts,
            };
            let s = match Symbol::try_from(var) {
                None => {
                    return lift(Err(Error::TypeError { expected: Type::Symbol, actual: var }));
                },
                Some(s) => s,
            };
            if fuel == 0 {
                return lift(Err(Error::DepthExceeded));
            }
            let n = cx.rooted();
            cx.root(rest);
            let r = self.eval_form(form, env, cx, fuel - 1);
            cx.unroot(n);
            match r {
                Err(e) => {
                    return Err(e);
                },
                Ok(v) => {
                    match self.var_set(s, v, env, cx) {
                        Err(e) => {
                            return Err(e);
                        },
                        Ok(_) => {},
                    }
                    last = v;
                },
            }
            count += 2;
            current = rest;
            fuel -= 1;
        }
    }

    /// `(let bindings body...)`, and `(let* bindings body...)` where
    /// `parallel` is unset.
    pub fn eval_let(&self, forms: Value, parallel: bool, env: &mut Environment, cx: &mut Context, depth: u64) -> (r:
        Result<Value, EvalError>)
        requires
            old(cx)@.wf(),
        ensures
            final(cx)@.wf(),
            outcome(*final(env), *final(cx), r) == semantics::eval_let(
                self.vars as nat,
                forms,
                parallel,
                state(*old(env), *old(cx)),
                depth as nat,
            ),
        decreases depth, 7nat,
    {
        let (bindings, body) = match split(cx, forms) {
            None => {
                return lift(Err(Error::ArgError { expected: 1, actual: 0, name: sym(LET) }));
            },
            Some(parts) => parts,
        };
        let prev_len = env.lexical.len();
        let saved = env.shadow.len();
        let n = cx.rooted();
        cx.root(body);
        let bound = if parallel {
            self.let_bind_parallel(bindings, env, cx, depth)
        } else {
            self.let_bind_serial(bindings, env, cx, depth)
        };
        let r = match bound {
            Err(e) => Err(e),
            Ok(_) => self.implicit_progn(body, env, cx, depth),
        };
        env.unbind(prev_len);
        env.restore(saved);
        cx.unroot(n);
        r
    }

    /// The bindings of `let*`: each is evaluated and bound in turn.
    pub fn let_bind_serial(&self, bindings: Value, env: &mut Environment, cx: &mut Context, depth: u64) -> (r:
        Result<(), EvalError>)
        requires
            old(cx)@.wf(),
        ensures
            final(cx)@.wf(),
            outcome(*final(env), *final(cx), r) == semantics::let_bind_serial(
                self.vars as nat,
                bindings,
                state(*old(env), *old(cx)),
                depth as nat,
            ),
        decreases depth, 5nat,
    {
        let mut current = bindings;
        let mut fuel = depth;
        loop
            invariant
                cx@.wf(),
                fuel <= depth,
                semantics::let_bind_serial(self.vars as nat, current, state(*env, *cx), fuel as nat)
                    == semantics::let_bind_serial(
                    self.vars as nat,
                    bindings,
                    state(*old(env), *old(cx)),
                    depth as nat,
                ),
            decreases fuel,
        {
            let (binding, rest) = match split(cx, current) {
                None => {
                    return Ok(());
                },
                Some(parts) => parts,
            };
            if fuel == 0 {
                return lift(Err(Error::DepthExceeded));
            }
            let n = cx.rooted();
            cx.root(rest);
            let one = self.let_binding(binding, env, cx, fuel - 1);
            cx.unroot(n);
            match one {
                Err(e) => {
                    return Err(e);
                },
                Ok((symbol, value)) => {
                    match install(symbol, value, env, cx) {
                        Err(e) => {
                            return Err(e);
                        },
                        Ok(_) => {},
                    }
                },
            }
            current = rest;
            fuel -= 1;
        }
    }

    /// The symbols and values of the bindings of `let`. Each value stays
    /// rooted.
    fn let_values(&self, bindings: Value, env: &mut Environment, cx: &mut Context, depth: u64) -> (r:
        Result<Vec<(Symbol, Value)>, EvalError>)
        requires
            old(cx)@.wf(),
        ensures
            final(cx)@.wf(),
            outcome_pairs(*final(env), *final(cx), r) == semantics::let_values(
                self.vars as nat,
                bindings,
                Seq::empty(),
                state(*old(env), *old(cx)),
                depth as nat,
            ),
        decreases depth, 5nat,
    {
        let mut done: Vec<(Symbol, Value)> = Vec::new();
        let mut current = bindings;
        let mut fuel = depth;
        loop
            invariant
                cx@.wf(),
                fuel <= depth,
                semantics::let_values(self.vars as nat, current, done@, state(*env, *cx), fuel as nat)
                    == semantics::let_values(
                    self.vars as nat,
                    bindings,
                    Seq::empty(),
                    state(*old(env), *old(cx)),
                    depth as nat,
                ),
            decreases fuel,
        {
            let (binding, rest) = match split(cx, current) {
                None => {
                    return Ok(done);
                },
                Some(parts) => parts,
            };
            if fuel == 0 {
                return Err(EvalError::new_error(Error::DepthExceeded));
            }
            let n = cx.rooted();
            cx.root(rest);
            let one = self.let_binding(binding, env, cx, fuel - 1);
            cx.unroot(n);
            match one {
                Err(e) => {
                    return Err(e);
                },
                Ok((symbol, value)) => {
                    done.push((symbol, value));
                    cx.root(value);
                },
            }
            current = rest;
            fuel -= 1;
        }
    }

    /// The bindings of `let`: all values are evaluated first, then all are
    /// bound.
    pub fn let_bind_parallel(&self, bindings: Value, env: &mut Environment, cx: &mut Context, depth: u64) -> (r:
        Result<(), EvalError>)
        requires
            old(cx)@.wf(),
        ensures
            final(cx)@.wf(),
            outcome(*final(env), *final(cx), r) == semantics::let_bind_parallel(
                self.vars as nat,
                bindings,
                state(*old(env), *old(cx)),
                depth as nat,
            ),
        decreases depth, 6nat,
    {
        let n = cx.rooted();
        let r = match self.let_values(bindings, env, cx, depth) {
            Err(e) => Err(e),
            Ok(let_bindings) => install_all(&let_bindings, env, cx),
        };
        cx.unroot(n);
        r
    }

    fn let_binding(&self, binding: Value, env: &mut Environment, cx: &mut Context, depth: u64) -> (r:
        Result<(Symbol, Value), EvalError>)
        requires
            old(cx)@.wf(),
        ensures
            final(cx)@.wf(),
            outcome(*final(env), *final(cx), r) == semantics::let_binding(
                self.vars as nat,
                binding,
                state(*old(env), *old(cx)),
                depth as nat,
            ),
        decreases depth, 4nat,
    {
        match cx.get(binding) {
            Object::Cons(c) => self.let_bind_value(c, env, cx, depth),
            Object::Symbol(s) => Ok((s, Value::nil())),
            _ => lift(Err(Error::TypeError { expected: Type::Cons, actual: binding })),
        }
    }

    /// The symbol and the value that the binding `(sym expr)`, whose cons
    /// cell holds `c`, gives.
    pub fn let_bind_value(&self, c: Cons, env: &mut Environment, cx: &mut Context, depth: u64) -> (r:
        Result<(Symbol, Value), EvalError>)
        requires
            old(cx)@.wf(),
        ensures
            final(cx)@.wf(),
            outcome(*final(env), *final(cx), r) == semantics::let_bind_value(
                self.vars as nat,
                c,
                state(*old(env), *old(cx)),
                depth as nat,
            ),
        decreases depth, 3nat,
    {
        match split(cx, c.cdr) {
            Some((form, rest)) => {
                let n = cx.rooted();
                cx.root(rest);
                let r = self.eval_form(form, env, cx, depth);
                cx.unroot(n);
                match r {
                    Err(e) => Err(e),
                    Ok(v) => {
                        if split(cx, rest).is_some() {
                            lift(Err(Error::LetBindingArity))
                        } else {
                            match Symbol::try_from(c.car) {
                                None => lift(Err(Error::LetVariable(c.car))),
                                Some(s) => Ok((s, v)),
                            }
                        }
                    },
                }
            },
            None => match Symbol::try_from(c.car) {
                None => lift(Err(Error::LetVariable(c.car))),
                Some(s) => Ok((s, Value::nil())),
            },
        }
    }

    /// Evaluates the forms of a list in order and gives the value of the
    /// last, or `nil` where there is none.
    pub fn implicit_progn(&self, forms: Value, env: &mut Environment, cx: &mut Context, depth: u64) -> (r:
        Result<Value, EvalError>)
        requires
            old(cx)@.wf(),
        ensures
            final(cx)@.wf(),
            outcome(*final(env), *final(cx), r) == semantics::implicit_progn(
                self.vars as nat,
                forms,
                Value::nil_spec(),
                state(*old(env), *old(cx)),
                depth as nat,
            ),
        decreases depth, 2nat,
    {
        let mut last = Value::nil();
        let mut current = forms;
        let mut fuel = depth;
        loop
            invariant
                cx@.wf(),
                fuel <= depth,
                semantics::implicit_progn(self.vars as nat, current, last, state(*env, *cx), fuel as nat)
                    == semantics::implicit_progn(
                    self.vars as nat,
                    forms,
                    Value::nil_spec(),
                    state(*old(env), *old(cx)),
                    depth as nat,
                ),
            decreases fuel,
        {
            let (form, rest) = match split(cx, current) {
                None => {
                    return Ok(last);
                },
                Some(parts) => parts,
            };
            if fuel == 0 {
                return lift(Err(Error::DepthExceeded));
            }
            let n = cx.rooted();
            cx.root(rest);
            let r = self.eval_form(form, env, cx, fuel - 1);
            cx.unroot(n);
            match r {
                Err(e) => {
                    return Err(e);
                },
                Ok(v) => {
                    last = v;
                },
            }
            current = rest;
            fuel -= 1;
        }
    }

    /// Runs a handler of `condition-case` on the error `e`: binds `var` to
    /// the pair of `error` and the text of the error, and evaluates `body`.
    fn run_handler(&self, var: Value, body: Value, e: &EvalError, env: &mut Environment, cx: &mut Context, depth: u64) -> (r:
        Result<Value, EvalError>)
        requires
            old(cx)@.wf(),
        ensures
            final(cx)@.wf(),
            outcome(*final(env), *final(cx), r) == semantics::run_handler(
                self.vars as nat,
                var,
                body,
                e@,
                state(*old(env), *old(cx)),
                depth as nat,
            ),
        decreases depth, 3nat,
    {
        let text = match cx.add_string(String::from_str(e.error.describe())) {
            Err(err) => {
                return lift(Err(err));
            },
            Ok(text) => text,
        };
        let datum = match cx.cons(sym(ERROR), text) {
            Err(err) => {
                return lift(Err(err));
            },
            Ok(datum) => datum,
        };
        let pair = match cx.cons(var, datum) {
            Err(err) => {
                return lift(Err(err));
            },
            Ok(pair) => pair,
        };
        let prev_len = env.lexical.len();
        env.bind(pair);
        let r = if is_list(cx, body) {
            self.implicit_progn(body, env, cx, depth)
        } else {
            Ok(Value::nil())
        };
        env.unbind(prev_len);
        r
    }

    /// Goes through the handlers of `condition-case` with the error `e`.
    fn handle(&self, var: Value, handlers: Value, e: EvalError, env: &mut Environment, cx: &mut Context, depth: u64) -> (r:
        Result<Value, EvalError>)
        requires
            old(cx)@.wf(),
        ensures
            final(cx)@.wf(),
            outcome(*final(env), *final(cx), r) == semantics::handle(
                self.vars as nat,
                var,
                handlers,
                e@,
                state(*old(env), *old(cx)),
                depth as nat,
            ),
        decreases depth, 4nat,
    {
        let mut current = handlers;
        let mut fuel = depth;
        loop
            invariant
                cx@.wf(),
                fuel <= depth,
                semantics::handle(self.vars as nat, var, current, e@, state(*env, *cx), fuel as nat)
                    == semantics::handle(
                    self.vars as nat,
                    var,
                    handlers,
                    e@,
                    state(*old(env), *old(cx)),
                    depth as nat,
                ),
            decreases fuel,
        {
            let (handler, rest) = match split(cx, current) {
                None => {
                    return Err(e);
                },
                Some(parts) => parts,
            };
            if fuel == 0 {
                return lift(Err(Error::DepthExceeded));
            }
            match cx.get(handler) {
                Object::Cons(h) => {
                    return match check_condition(cx, h.car, fuel - 1) {
                        Err(err) => lift(Err(err)),
                        Ok(_) => self.run_handler(var, h.cdr, &e, env, cx, fuel - 1),
                    };
                },
                Object::Nil => {},
                _ => {
                    return lift(Err(Error::InvalidConditionHandler(handler)));
                },
            }
            current = rest;
            fuel -= 1;
        }
    }

    /// `(condition-case var body handlers...)`.
    pub fn condition_case(&self, forms: Value, env: &mut Environment, cx: &mut Context, depth: u64) -> (r:
        Result<Value, EvalError>)
        requires
            old(cx)@.wf(),
        ensures
            final(cx)@.wf(),
            outcome(*final(env), *final(cx), r) == semantics::condition_case(
                self.vars as nat,
                forms,
                state(*old(env), *old(cx)),
                depth as nat,
            ),
        decreases depth, 5nat,
    {
        let (var, rest) = match split(cx, forms) {
            None => {
                return lift(
                    Err(Error::ArgError { expected: 2, actual: 0, name: sym(CONDITION_CASE) }),
                );
            },
            Some(parts) => parts,
        };
        let (body, handlers) = match split(cx, rest) {
            None => {
                return lift(
                    Err(Error::ArgError { expected: 2, actual: 1, name: sym(CONDITION_CASE) }),
                );
            },
            Some(parts) => parts,
        };
        let n = cx.rooted();
        cx.root(var);
        cx.root(handlers);
        let r = self.eval_form(body, env, cx, depth);
        cx.unroot(n);
        match r {
            Ok(v) => Ok(v),
            Err(e) => {
                if e.error.is_fatal() {
                    Err(e)
                } else {
                    cx.root(var);
                    cx.root(handlers);
                    let handled = self.handle(var, handlers, e, env, cx, depth);
                    cx.unroot(n);
                    handled
                }
            },
        }
    }
}

} // verus!
