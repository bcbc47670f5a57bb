//! The stacks unwind: whatever a form evaluates to, an error or a value,
//! evaluation leaves the root registry, the lexical bindings and the saved
//! dynamic values exactly as it found them.
use crate::cell::SubrFn;
use crate::context::Cons;
use crate::context::CxView;
use crate::context::Object;
use crate::env::EnvView;
use crate::error::Failure;
use crate::root::RootedView;
use crate::semantics;
use crate::semantics::State;
use crate::symbol::Symbol;
use crate::value::Value;
use vstd::prelude::*;

verus! {

/// Whether `after` has the stacks of `before`: the same roots, the same
/// lexical bindings, the same saved values.
pub open spec fn settled(before: State, after: State) -> bool {
    &&& after.cx.roots == before.cx.roots
    &&& after.env.lexical == before.env.lexical
    &&& after.env.shadow == before.env.shadow
}

/// Whether `longer` begins with `shorter`.
pub open spec fn extends<T>(shorter: Seq<T>, longer: Seq<T>) -> bool {
    shorter.len() <= longer.len() && longer.take(shorter.len() as int) == shorter
}

/// Whether `after` has the stacks of `before` with, at most, more roots on
/// top.
pub open spec fn rooted_more(before: State, after: State) -> bool {
    &&& extends(before.cx.roots, after.cx.roots)
    &&& after.env.lexical == before.env.lexical
    &&& after.env.shadow == before.env.shadow
}

/// Whether `after` has the stacks of `before` with, at most, more lexical
/// bindings and more saved values on top.
pub open spec fn bound_more(before: State, after: State) -> bool {
    &&& after.cx.roots == before.cx.roots
    &&& extends(before.env.lexical, after.env.lexical)
    &&& extends(before.env.shadow, after.env.shadow)
}

/// Every sequence begins with itself.
pub proof fn lemma_extends_refl<T>(s: Seq<T>)
    ensures
        extends(s, s),
{
    assert(s.take(s.len() as int) =~= s);
}

/// What begins with a sequence still does with one more element at its end.
pub proof fn lemma_extends_push<T>(a: Seq<T>, b: Seq<T>, x: T)
    requires
        extends(a, b),
    ensures
        extends(a, b.push(x)),
{
    assert(b.push(x).take(a.len() as int) =~= b.take(a.len() as int));
}

/// Beginning with is transitive.
pub proof fn lemma_extends_trans<T>(a: Seq<T>, b: Seq<T>, c: Seq<T>)
    requires
        extends(a, b),
        extends(b, c),
    ensures
        extends(a, c),
{
    assert(c.take(a.len() as int) =~= c.take(b.len() as int).take(a.len() as int));
}

/// Giving saved values back cuts the saved values back and leaves the
/// lexical bindings alone.
pub proof fn lemma_restore_stacks(env: EnvView, len: nat)
    ensures
        env.restore(len).lexical == env.lexical,
        env.restore(len).shadow == if len <= env.shadow.len() {
            env.shadow.take(len as int)
        } else {
            env.shadow
        },
    decreases env.shadow.len(),
{
    if env.shadow.len() <= len {
        assert(env.shadow.take(env.shadow.len() as int) =~= env.shadow);
    } else {
        let (symbol, value) = env.shadow.last();
        let next = EnvView { shadow: env.shadow.drop_last(), ..env.set_var(symbol, value) };
        lemma_restore_stacks(next, len);
        assert(next.shadow.take(len as int) =~= env.shadow.take(len as int));
    }
}

/// Unwinding a state whose bindings have grown gives back the old stacks.
pub proof fn lemma_unwind(before: State, after: State)
    requires
        extends(before.cx.roots, after.cx.roots),
        extends(before.env.lexical, after.env.lexical),
        extends(before.env.shadow, after.env.shadow),
    ensures
        settled(
            before,
            after.unwind(before.env.lexical.len(), before.env.shadow.len(), before.cx.roots.len()),
        ),
{
    lemma_restore_stacks(after.env.unbind(before.env.lexical.len()), before.env.shadow.len());
}

/// `install` leaves the registry as it found it, and the lexical bindings and
/// the saved values with, at most, more on top.
pub proof fn lemma_install(symbol: Symbol, value: Value, st: State)
    ensures
        bound_more(st, semantics::install(symbol, value, st).st),
{
    let after = semantics::install(symbol, value, st).st;
    lemma_extends_refl(st.env.lexical);
    lemma_extends_refl(st.env.shadow);
    match st.env.get_var(symbol) {
        Some(previous) => {
            lemma_extends_push(st.env.shadow, st.env.shadow, (symbol, previous));
        },
        None => {
            let (cx1, r) = st.cx.cons(symbol.value, value);
            match r {
                Ok(pair) => {
                    lemma_extends_push(st.env.lexical, st.env.lexical, pair);
                },
                Err(_) => {},
            }
        },
    }
}

/// `install_all` leaves the registry as it found it, and the lexical bindings and
/// the saved values with, at most, more on top.
pub proof fn lemma_install_all(pairs: Seq<(Symbol, Value)>, k: nat, st: State)
    ensures
        bound_more(st, semantics::install_all(pairs, k, st).st),
    decreases pairs.len() - k,
{
    lemma_extends_refl(st.env.lexical);
    lemma_extends_refl(st.env.shadow);
    if k < pairs.len() {
        let one = semantics::install(pairs[k as int].0, pairs[k as int].1, st);
        lemma_install(pairs[k as int].0, pairs[k as int].1, st);
        match one.res {
            Err(_) => {},
            Ok(_) => {
                lemma_install_all(pairs, k + 1, one.st);
                let after = semantics::install_all(pairs, k + 1, one.st).st;
                lemma_extends_trans(st.env.lexical, one.st.env.lexical, after.env.lexical);
                lemma_extends_trans(st.env.shadow, one.st.env.shadow, after.env.shadow);
            },
        }
    }
}

/// `list_from` leaves the registry as it found it.
pub proof fn lemma_list_from(cx: CxView, items: Seq<Value>, from: nat, upto: nat, tail: Value)
    ensures
        semantics::list_from(cx, items, from, upto, tail).0.roots == cx.roots,
    decreases upto,
{
    if !(upto <= from || upto > items.len()) {
        let (cx1, r) = cx.cons(items[upto - 1], tail);
        match r {
            Err(_) => {},
            Ok(t) => {
                lemma_list_from(cx1, items, from, (upto - 1) as nat, t);
            },
        }
    }
}

/// `bind_names` leaves the registry as it found it.
pub proof fn lemma_bind_names(cx: CxView, names: Seq<Symbol>, args: Seq<Value>, k: nat, vars: Seq<Value>)
    ensures
        semantics::bind_names(cx, names, args, k, vars).0.roots == cx.roots,
        semantics::bind_names(cx, names, args, k, vars).1 matches Ok(all) ==> extends(vars, all),
    decreases names.len() - k,
{
    lemma_extends_refl(vars);
    if k < names.len() {
        let value = if k < args.len() {
            args[k as int]
        } else {
            Value::nil_spec()
        };
        let (cx1, r) = cx.cons(names[k as int].value, value);
        match r {
            Err(_) => {},
            Ok(pair) => {
                lemma_bind_names(cx1, names, args, k + 1, vars.push(pair));
                lemma_extends_push(vars, vars, pair);
                match semantics::bind_names(cx1, names, args, k + 1, vars.push(pair)).1 {
                    Ok(all) => {
                        lemma_extends_trans(vars, vars.push(pair), all);
                    },
                    Err(_) => {},
                }
            },
        }
    }
}

/// `bind_variables` leaves the registry as it found it.
pub proof fn lemma_bind_variables(cx: CxView, forms: Value, args: Seq<Value>, name: Value, depth: nat)
    ensures
        semantics::bind_variables(cx, forms, args, name, depth).0.roots == cx.roots,
{
    match semantics::split(cx, forms) {
        None => {},
        Some((env, rest)) => match semantics::parse_closure_env(cx, env, Seq::empty(), depth) {
            Err(_) => {},
            Ok(vars) => match semantics::split(cx, rest) {
                None => {},
                Some((arg_list, body)) => {
                    match semantics::parse_arg_list(cx, arg_list, depth) {
                        Err(_) => {},
                        Ok(names) => {
                            let positional = names.required + names.optional;
                            lemma_bind_names(cx, positional, args, 0, vars);
                            let (cx1, bound) = semantics::bind_names(cx, positional, args, 0, vars);
                            lemma_list_from(cx1, args, positional.len(), args.len(), Value::nil_spec());
                        },
                    }
                },
            },
        },
    }
}

/// `simple_subr` leaves the stacks as it found them.
pub proof fn lemma_simple_subr(f: SubrFn, args: Seq<Value>, st: State, depth: nat)
    ensures
        settled(st, semantics::simple_subr(f, args, st, depth).st),
{
}

/// `eval_function` leaves the stacks as it found them.
pub proof fn lemma_eval_function(base: nat, forms: Value, st: State)
    ensures
        settled(st, semantics::eval_function(base, forms, st).st),
{
    let (cx1, end) = st.cx.cons(Value::true_spec(), Value::nil_spec());
    match end {
        Ok(end) => {
            lemma_list_from(cx1, st.env.lexical, base, st.env.lexical.len(), end);
        },
        Err(_) => {},
    }
}

/// `eval_form` leaves the stacks as it found them.
pub proof fn lemma_eval_form(base: nat, form: Value, st: State, depth: nat)
    ensures
        settled(st, semantics::eval_form(base, form, st, depth).st),
    decreases depth, 0nat,
{
    if depth > 0 {
        match st.cx.object(form) {
            Object::Cons(c) => {
                lemma_eval_sexp(base, c, st, (depth - 1) as nat);
            },
            _ => {},
        }
    }
}

/// `eval_sexp` leaves the stacks as it found them.
pub proof fn lemma_eval_sexp(base: nat, c: Cons, st: State, depth: nat)
    ensures
        settled(st, semantics::eval_sexp(base, c, st, depth).st),
    decreases depth, 20nat,
{
    let st1 = st.root(c.cdr);
    lemma_extends_refl(st.cx.roots);
    lemma_extends_push(st.cx.roots, st.cx.roots, RootedView::Scalar(c.cdr));
    match st.cx.object(c.car) {
        Object::Symbol(s) => {
            lemma_dispatch(base, s, c.cdr, st1, depth);
        },
        _ => {},
    }
}

/// `dispatch` leaves the stacks as it found them.
pub proof fn lemma_dispatch(base: nat, s: Symbol, forms: Value, st: State, depth: nat)
    ensures
        settled(st, semantics::dispatch(base, s, forms, st, depth).st),
    decreases depth, 19nat,
{
    let id = s.id_spec();
    if id == crate::symbol::QUOTE {
    } else if id == crate::symbol::LET {
        lemma_eval_let(base, forms, true, st, depth);
    } else if id == crate::symbol::LET_STAR {
        lemma_eval_let(base, forms, false, st, depth);
    } else if id == crate::symbol::IF {
        lemma_eval_if(base, forms, st, depth);
    } else if id == crate::symbol::AND {
        lemma_eval_and(base, forms, Value::true_spec(), st, depth);
    } else if id == crate::symbol::OR {
        lemma_eval_or(base, forms, st, depth);
    } else if id == crate::symbol::COND {
        lemma_eval_cond(base, forms, st, depth);
    } else if id == crate::symbol::WHILE {
        lemma_eval_while(base, forms, st, depth);
    } else if id == crate::symbol::PROGN {
        lemma_implicit_progn(base, forms, Value::nil_spec(), st, depth);
    } else if id == crate::symbol::PROG1 {
        lemma_eval_progx(base, forms, 1, 0, None, st, depth);
    } else if id == crate::symbol::PROG2 {
        lemma_eval_progx(base, forms, 2, 0, None, st, depth);
    } else if id == crate::symbol::SETQ {
        lemma_setq(base, forms, 0, Value::nil_spec(), st, depth);
    } else if id == crate::symbol::DEFVAR {
        lemma_defvar(base, forms, false, st, depth);
    } else if id == crate::symbol::DEFCONST {
        lemma_defvar(base, forms, true, st, depth);
    } else if id == crate::symbol::FUNCTION {
        lemma_eval_function(base, forms, st);
    } else if id == crate::symbol::INTERACTIVE {
    } else if id == crate::symbol::CATCH {
        lemma_catch(base, forms, st, depth);
    } else if id == crate::symbol::CONDITION_CASE {
        lemma_condition_case(base, forms, st, depth);
    } else {
        lemma_eval_call(base, s, forms, st, depth);
    }
}

/// Evaluating `form` with `keep` rooted on top, and cutting the registry
/// back afterwards, leaves the stacks as they were.
pub proof fn lemma_guarded(base: nat, form: Value, st: State, keep: State, depth: nat)
    requires
        extends(st.cx.roots, keep.cx.roots),
        keep.env.lexical == st.env.lexical,
        keep.env.shadow == st.env.shadow,
    ensures
        settled(st, semantics::eval_form(base, form, keep, depth).st.unroot(st.cx.roots.len())),
    decreases depth, 1nat,
{
    lemma_eval_form(base, form, keep, depth);
}

/// Rooting one value makes the registry grow.
pub proof fn lemma_roots1(st: State, a: Value)
    ensures
        extends(st.cx.roots, st.root(a).cx.roots),
{
    lemma_extends_refl(st.cx.roots);
    lemma_extends_push(st.cx.roots, st.cx.roots, RootedView::Scalar(a));
}

/// Rooting two values makes the registry grow.
pub proof fn lemma_roots2(st: State, a: Value, b: Value)
    ensures
        extends(st.cx.roots, st.root(a).root(b).cx.roots),
{
    lemma_roots1(st, a);
    lemma_extends_push(st.cx.roots, st.root(a).cx.roots, RootedView::Scalar(b));
}

/// `implicit_progn` leaves the stacks as it found them.
pub proof fn lemma_implicit_progn(base: nat, forms: Value, last: Value, st: State, depth: nat)
    ensures
        settled(st, semantics::implicit_progn(base, forms, last, st, depth).st),
    decreases depth, 2nat,
{
    match semantics::split(st.cx, forms) {
        None => {},
        Some((form, rest)) => if depth > 0 {
            lemma_roots1(st, rest);
            lemma_guarded(base, form, st, st.root(rest), (depth - 1) as nat);
            let out = semantics::eval_form(base, form, st.root(rest), (depth - 1) as nat);
            let st2 = out.st.unroot(st.cx.roots.len());
            match out.res {
                Err(_) => {},
                Ok(v) => {
                    lemma_implicit_progn(base, rest, v, st2, (depth - 1) as nat);
                },
            }
        },
    }
}

/// `eval_and` leaves the stacks as it found them.
pub proof fn lemma_eval_and(base: nat, forms: Value, last: Value, st: State, depth: nat)
    ensures
        settled(st, semantics::eval_and(base, forms, last, st, depth).st),
    decreases depth, 2nat,
{
    match semantics::split(st.cx, forms) {
        None => {},
        Some((form, rest)) => if depth > 0 {
            lemma_roots1(st, rest);
            lemma_guarded(base, form, st, st.root(rest), (depth - 1) as nat);
            let out = semantics::eval_form(base, form, st.root(rest), (depth - 1) as nat);
            let st2 = out.st.unroot(st.cx.roots.len());
            match out.res {
                Err(_) => {},
                Ok(v) => {
                    if v != Value::nil_spec() {
                        lemma_eval_and(base, rest, v, st2, (depth - 1) as nat);
                    }
                },
            }
        },
    }
}

/// `eval_or` leaves the stacks as it found them.
pub proof fn lemma_eval_or(base: nat, forms: Value, st: State, depth: nat)
    ensures
        settled(st, semantics::eval_or(base, forms, st, depth).st),
    decreases depth, 2nat,
{
    match semantics::split(st.cx, forms) {
        None => {},
        Some((form, rest)) => if depth > 0 {
            lemma_roots1(st, rest);
            lemma_guarded(base, form, st, st.root(rest), (depth - 1) as nat);
            let out = semantics::eval_form(base, form, st.root(rest), (depth - 1) as nat);
            let st2 = out.st.unroot(st.cx.roots.len());
            match out.res {
                Err(_) => {},
                Ok(v) => {
                    if v == Value::nil_spec() {
                        lemma_eval_or(base, rest, st2, (depth - 1) as nat);
                    }
                },
            }
        },
    }
}

/// `eval_if` leaves the stacks as it found them.
pub proof fn lemma_eval_if(base: nat, forms: Value, st: State, depth: nat)
    ensures
        settled(st, semantics::eval_if(base, forms, st, depth).st),
    decreases depth, 3nat,
{
    match semantics::split(st.cx, forms) {
        None => {},
        Some((condition, rest)) => match semantics::split(st.cx, rest) {
            None => {},
            Some((then, otherwise)) => {
                lemma_roots2(st, then, otherwise);
                lemma_guarded(base, condition, st, st.root(then).root(otherwise), depth);
                let out = semantics::eval_form(base, condition, st.root(then).root(otherwise), depth);
                let st2 = out.st.unroot(st.cx.roots.len());
                match out.res {
                    Err(_) => {},
                    Ok(v) => {
                        if v != Value::nil_spec() {
                            lemma_eval_form(base, then, st2, depth);
                        } else {
                            lemma_implicit_progn(base, otherwise, Value::nil_spec(), st2, depth);
                        }
                    },
                }
            },
        },
    }
}

/// `eval_cond` leaves the stacks as it found them.
pub proof fn lemma_eval_cond(base: nat, forms: Value, st: State, depth: nat)
    ensures
        settled(st, semantics::eval_cond(base, forms, st, depth).st),
    decreases depth, 3nat,
{
    match semantics::split(st.cx, forms) {
        None => {},
        Some((clause, rest)) => if depth > 0 {
            match semantics::split(st.cx, clause) {
                None => {
                    lemma_eval_cond(base, rest, st, (depth - 1) as nat);
                },
                Some((test, body)) => {
                    lemma_roots2(st, rest, body);
                    lemma_guarded(base, test, st, st.root(rest).root(body), (depth - 1) as nat);
                    let out = semantics::eval_form(
                        base,
                        test,
                        st.root(rest).root(body),
                        (depth - 1) as nat,
                    );
                    let st2 = out.st.unroot(st.cx.roots.len());
                    match out.res {
                        Err(_) => {},
                        Ok(v) => {
                            if v != Value::nil_spec() {
                                lemma_implicit_progn(
                                    base,
                                    body,
                                    Value::nil_spec(),
                                    st2,
                                    (depth - 1) as nat,
                                );
                            } else {
                                lemma_eval_cond(base, rest, st2, (depth - 1) as nat);
                            }
                        },
                    }
                },
            }
        },
    }
}

/// `while_loop` leaves the stacks as it found them.
pub proof fn lemma_while_loop(base: nat, condition: Value, body: Value, st: State, depth: nat)
    ensures
        settled(st, semantics::while_loop(base, condition, body, st, depth).st),
    decreases depth, 3nat,
{
    if depth > 0 {
        lemma_eval_form(base, condition, st, (depth - 1) as nat);
        let out = semantics::eval_form(base, condition, st, (depth - 1) as nat);
        match out.res {
            Err(_) => {},
            Ok(v) => {
                if v != Value::nil_spec() {
                    lemma_implicit_progn(base, body, Value::nil_spec(), out.st, (depth - 1) as nat);
                    let done = semantics::implicit_progn(
                        base,
                        body,
                        Value::nil_spec(),
                        out.st,
                        (depth - 1) as nat,
                    );
                    match done.res {
                        Err(_) => {},
                        Ok(_) => {
                            lemma_while_loop(base, condition, body, done.st, (depth - 1) as nat);
                        },
                    }
                }
            },
        }
    }
}

/// `eval_while` leaves the stacks as it found them.
pub proof fn lemma_eval_while(base: nat, forms: Value, st: State, depth: nat)
    ensures
        settled(st, semantics::eval_while(base, forms, st, depth).st),
    decreases depth, 4nat,
{
    match st.cx.object(forms) {
        Object::Cons(c) => {
            lemma_roots2(st, c.car, c.cdr);
            lemma_while_loop(base, c.car, c.cdr, st.root(c.car).root(c.cdr), depth);
        },
        _ => {},
    }
}

/// `eval_progx` leaves the stacks as it found them.
pub proof fn lemma_eval_progx(
    base: nat,
    forms: Value,
    n: u16,
    count: nat,
    kept: Option<Value>,
    st: State,
    depth: nat,
)
    ensures
        settled(st, semantics::eval_progx(base, forms, n, count, kept, st, depth).st),
    decreases depth, 3nat,
{
    match semantics::split(st.cx, forms) {
        None => {},
        Some((form, rest)) => if depth > 0 {
            let st1 = match kept {
                Some(k) => st.root(rest).root(k),
                None => st.root(rest),
            };
            lemma_roots1(st, rest);
            match kept {
                Some(k) => {
                    lemma_roots2(st, rest, k);
                },
                None => {},
            }
            lemma_guarded(base, form, st, st1, (depth - 1) as nat);
            let out = semantics::eval_form(base, form, st1, (depth - 1) as nat);
            let st2 = out.st.unroot(st.cx.roots.len());
            match out.res {
                Err(_) => {},
                Ok(v) => {
                    lemma_eval_progx(
                        base,
                        rest,
                        n,
                        count + 1,
                        if count + 1 == n {
                            Some(v)
                        } else {
                            kept
                        },
                        st2,
                        (depth - 1) as nat,
                    );
                },
            }
        },
    }
}

/// `var_set` leaves the stacks as it found them.
pub proof fn lemma_var_set(base: nat, symbol: Symbol, value: Value, st: State)
    ensures
        settled(st, semantics::var_set(base, symbol, value, st).st),
{
}

/// `setq` leaves the stacks as it found them.
pub proof fn lemma_setq(base: nat, forms: Value, count: nat, last: Value, st: State, depth: nat)
    ensures
        settled(st, semantics::setq(base, forms, count, last, st, depth).st),
    decreases depth, 3nat,
{
    match semantics::split(st.cx, forms) {
        None => {},
        Some((var, rest)) => match semantics::split(st.cx, rest) {
            None => {},
            Some((form, rest2)) => match Symbol::of_value(var) {
                None => {},
                Some(s) => if depth > 0 {
                    lemma_roots1(st, rest2);
                    lemma_guarded(base, form, st, st.root(rest2), (depth - 1) as nat);
                    let out = semantics::eval_form(base, form, st.root(rest2), (depth - 1) as nat);
                    let st2 = out.st.unroot(st.cx.roots.len());
                    match out.res {
                        Err(_) => {},
                        Ok(v) => {
                            lemma_var_set(base, s, v, st2);
                            let set = semantics::var_set(base, s, v, st2);
                            match set.res {
                                Err(_) => {},
                                Ok(_) => {
                                    lemma_setq(base, rest2, count + 2, v, set.st, (depth - 1) as nat);
                                },
                            }
                        },
                    }
                },
            },
        },
    }
}

/// `defvar` leaves the stacks as it found them.
pub proof fn lemma_defvar(base: nat, forms: Value, constant: bool, st: State, depth: nat)
    ensures
        settled(st, semantics::defvar(base, forms, constant, st, depth).st),
    decreases depth, 3nat,
{
    match semantics::split(st.cx, forms) {
        None => {},
        Some((x, rest)) => match Symbol::of_value(x) {
            None => {},
            Some(name) => match semantics::split(st.cx, rest) {
                Some((form, _)) => {
                    lemma_eval_form(base, form, st, depth);
                },
                None => {},
            },
        },
    }
}

/// `catch` leaves the stacks as it found them.
pub proof fn lemma_catch(base: nat, forms: Value, st: State, depth: nat)
    ensures
        settled(st, semantics::catch(base, forms, st, depth).st),
    decreases depth, 3nat,
{
    match semantics::split(st.cx, forms) {
        None => {},
        Some((tag, body)) => {
            lemma_roots1(st, body);
            lemma_guarded(base, tag, st, st.root(body), depth);
            let out = semantics::eval_form(base, tag, st.root(body), depth);
            let st2 = out.st.unroot(st.cx.roots.len());
            match out.res {
                Err(_) => {},
                Ok(_) => {
                    lemma_implicit_progn(base, body, Value::nil_spec(), st2, depth);
                },
            }
        },
    }
}

/// `let_bind_value` leaves the stacks as it found them.
pub proof fn lemma_let_bind_value(base: nat, c: Cons, st: State, depth: nat)
    ensures
        settled(st, semantics::let_bind_value(base, c, st, depth).st),
    decreases depth, 3nat,
{
    match semantics::split(st.cx, c.cdr) {
        Some((form, rest)) => {
            lemma_roots1(st, rest);
            lemma_guarded(base, form, st, st.root(rest), depth);
        },
        None => {},
    }
}

/// `let_binding` leaves the stacks as it found them.
pub proof fn lemma_let_binding(base: nat, binding: Value, st: State, depth: nat)
    ensures
        settled(st, semantics::let_binding(base, binding, st, depth).st),
    decreases depth, 4nat,
{
    match st.cx.object(binding) {
        Object::Cons(c) => {
            lemma_let_bind_value(base, c, st, depth);
        },
        _ => {},
    }
}

/// One binding of `let`, evaluated with `rest` rooted and the registry cut
/// back afterwards, leaves the stacks as they were.
pub proof fn lemma_one_binding(base: nat, binding: Value, rest: Value, st: State, depth: nat)
    ensures
        settled(
            st,
            semantics::let_binding(base, binding, st.root(rest), depth).st.unroot(st.cx.roots.len()),
        ),
    decreases depth, 5nat,
{
    lemma_roots1(st, rest);
    lemma_let_binding(base, binding, st.root(rest), depth);
}

/// `let_bind_serial` leaves the registry as it found it, and the lexical bindings and
/// the saved values with, at most, more on top.
pub proof fn lemma_let_bind_serial(base: nat, bindings: Value, st: State, depth: nat)
    ensures
        bound_more(st, semantics::let_bind_serial(base, bindings, st, depth).st),
    decreases depth, 6nat,
{
    lemma_extends_refl(st.env.lexical);
    lemma_extends_refl(st.env.shadow);
    match semantics::split(st.cx, bindings) {
        None => {},
        Some((binding, rest)) => if depth > 0 {
            lemma_one_binding(base, binding, rest, st, (depth - 1) as nat);
            let one = semantics::let_binding(base, binding, st.root(rest), (depth - 1) as nat);
            let st2 = one.st.unroot(st.cx.roots.len());
            match one.res {
                Err(_) => {},
                Ok((symbol, value)) => {
                    lemma_install(symbol, value, st2);
                    let bound = semantics::install(symbol, value, st2);
                    match bound.res {
                        Err(_) => {},
                        Ok(_) => {
                            lemma_let_bind_serial(base, rest, bound.st, (depth - 1) as nat);
                            let after = semantics::let_bind_serial(
                                base,
                                rest,
                                bound.st,
                                (depth - 1) as nat,
                            ).st;
                            lemma_extends_trans(
                                st.env.lexical,
                                bound.st.env.lexical,
                                after.env.lexical,
                            );
                            lemma_extends_trans(st.env.shadow, bound.st.env.shadow, after.env.shadow);
                        },
                    }
                },
            }
        },
    }
}

/// `let_values` leaves the bindings and the saved values as it found them, and the
/// registry with, at most, more roots on top.
pub proof fn lemma_let_values(
    base: nat,
    bindings: Value,
    done: Seq<(Symbol, Value)>,
    st: State,
    depth: nat,
)
    ensures
        rooted_more(st, semantics::let_values(base, bindings, done, st, depth).st),
    decreases depth, 6nat,
{
    lemma_extends_refl(st.cx.roots);
    match semantics::split(st.cx, bindings) {
        None => {},
        Some((binding, rest)) => if depth > 0 {
            lemma_one_binding(base, binding, rest, st, (depth - 1) as nat);
            let one = semantics::let_binding(base, binding, st.root(rest), (depth - 1) as nat);
            let st2 = one.st.unroot(st.cx.roots.len());
            match one.res {
                Err(_) => {},
                Ok((symbol, value)) => {
                    lemma_let_values(
                        base,
                        rest,
                        done.push((symbol, value)),
                        st2.root(value),
                        (depth - 1) as nat,
                    );
                    let after = semantics::let_values(
                        base,
                        rest,
                        done.push((symbol, value)),
                        st2.root(value),
                        (depth - 1) as nat,
                    ).st;
                    lemma_roots1(st2, value);
                    lemma_extends_trans(st.cx.roots, st2.root(value).cx.roots, after.cx.roots);
                },
            }
        },
    }
}

/// `let_bind_parallel` leaves the registry as it found it, and the lexical bindings and
/// the saved values with, at most, more on top.
pub proof fn lemma_let_bind_parallel(base: nat, bindings: Value, st: State, depth: nat)
    ensures
        bound_more(st, semantics::let_bind_parallel(base, bindings, st, depth).st),
    decreases depth, 7nat,
{
    lemma_extends_refl(st.env.lexical);
    lemma_extends_refl(st.env.shadow);
    lemma_let_values(base, bindings, Seq::empty(), st, depth);
    let values = semantics::let_values(base, bindings, Seq::empty(), st, depth);
    match values.res {
        Err(_) => {},
        Ok(pairs) => {
            lemma_install_all(pairs, 0, values.st);
        },
    }
}

/// `eval_let` leaves the stacks as it found them.
pub proof fn lemma_eval_let(base: nat, forms: Value, parallel: bool, st: State, depth: nat)
    ensures
        settled(st, semantics::eval_let(base, forms, parallel, st, depth).st),
    decreases depth, 8nat,
{
    match semantics::split(st.cx, forms) {
        None => {},
        Some((bindings, body)) => {
            let st1 = st.root(body);
            lemma_roots1(st, body);
            let bound = if parallel {
                lemma_let_bind_parallel(base, bindings, st1, depth);
                semantics::let_bind_parallel(base, bindings, st1, depth)
            } else {
                lemma_let_bind_serial(base, bindings, st1, depth);
                semantics::let_bind_serial(base, bindings, st1, depth)
            };
            let out = match bound.res {
                Err(e) => semantics::Outcome { st: bound.st, res: Err(e) },
                Ok(_) => {
                    lemma_implicit_progn(base, body, Value::nil_spec(), bound.st, depth);
                    semantics::implicit_progn(base, body, Value::nil_spec(), bound.st, depth)
                },
            };
            lemma_unwind(st, out.st);
        },
    }
}

/// `run_handler` leaves the stacks as it found them.
pub proof fn lemma_run_handler(base: nat, var: Value, body: Value, e: Failure, st: State, depth: nat)
    ensures
        settled(st, semantics::run_handler(base, var, body, e, st, depth).st),
    decreases depth, 3nat,
{
    let (cx1, text) = st.cx.add(crate::cell::CellView::String(e.error.describe_spec()));
    match text {
        Err(_) => {},
        Ok(text) => {
            let (cx2, datum) = cx1.cons(semantics::sym(crate::symbol::ERROR), text);
            match datum {
                Err(_) => {},
                Ok(datum) => {
                    let (cx3, pair) = cx2.cons(var, datum);
                    match pair {
                        Err(_) => {},
                        Ok(pair) => {
                            let st3 = State { env: st.env.bind(pair), cx: cx3 };
                            lemma_extends_refl(st.env.lexical);
                            lemma_extends_push(st.env.lexical, st.env.lexical, pair);
                            if semantics::is_list(cx3, body) {
                                lemma_implicit_progn(base, body, Value::nil_spec(), st3, depth);
                            }
                        },
                    }
                },
            }
        },
    }
}

/// `handle` leaves the stacks as it found them.
pub proof fn lemma_handle(base: nat, var: Value, handlers: Value, e: Failure, st: State, depth: nat)
    ensures
        settled(st, semantics::handle(base, var, handlers, e, st, depth).st),
    decreases depth, 4nat,
{
    match semantics::split(st.cx, handlers) {
        None => {},
        Some((handler, rest)) => if depth > 0 {
            match st.cx.object(handler) {
                Object::Cons(h) => {
                    lemma_run_handler(base, var, h.cdr, e, st, (depth - 1) as nat);
                },
                Object::Nil => {
                    lemma_handle(base, var, rest, e, st, (depth - 1) as nat);
                },
                _ => {},
            }
        },
    }
}

/// `condition_case` leaves the stacks as it found them.
pub proof fn lemma_condition_case(base: nat, forms: Value, st: State, depth: nat)
    ensures
        settled(st, semantics::condition_case(base, forms, st, depth).st),
    decreases depth, 5nat,
{
    match semantics::split(st.cx, forms) {
        None => {},
        Some((var, rest)) => match semantics::split(st.cx, rest) {
            None => {},
            Some((body, handlers)) => {
                lemma_roots2(st, var, handlers);
                lemma_guarded(base, body, st, st.root(var).root(handlers), depth);
                let out = semantics::eval_form(base, body, st.root(var).root(handlers), depth);
                let st2 = out.st.unroot(st.cx.roots.len());
                match out.res {
                    Ok(_) => {},
                    Err(e) => {
                        if !e.error.fatal() {
                            lemma_roots2(st2, var, handlers);
                            lemma_handle(base, var, handlers, e, st2.root(var).root(handlers), depth);
                        }
                    },
                }
            },
        },
    }
}

/// `eval_args` leaves the bindings and the saved values as it found them, and the
/// registry with, at most, more roots on top.
pub proof fn lemma_eval_args(base: nat, forms: Value, done: Seq<Value>, st: State, depth: nat)
    ensures
        rooted_more(st, semantics::eval_args(base, forms, done, st, depth).st),
    decreases depth, 2nat,
{
    lemma_extends_refl(st.cx.roots);
    match semantics::split(st.cx, forms) {
        None => {},
        Some((form, rest)) => if depth > 0 {
            lemma_roots1(st, rest);
            lemma_guarded(base, form, st, st.root(rest), (depth - 1) as nat);
            let out = semantics::eval_form(base, form, st.root(rest), (depth - 1) as nat);
            let st2 = out.st.unroot(st.cx.roots.len());
            match out.res {
                Err(_) => {},
                Ok(v) => {
                    lemma_eval_args(base, rest, done.push(v), st2.root(v), (depth - 1) as nat);
                    let after = semantics::eval_args(
                        base,
                        rest,
                        done.push(v),
                        st2.root(v),
                        (depth - 1) as nat,
                    ).st;
                    lemma_roots1(st2, v);
                    lemma_extends_trans(st.cx.roots, st2.root(v).cx.roots, after.cx.roots);
                },
            }
        },
    }
}

/// `call_forms` leaves the stacks as it found them.
pub proof fn lemma_call_forms(forms: Value, args: Seq<Value>, name: Value, st: State, depth: nat)
    ensures
        settled(st, semantics::call_forms(forms, args, name, st, depth).st),
    decreases depth, 3nat,
{
    lemma_bind_variables(st.cx, forms, args, name, depth);
    let (cx1, bound) = semantics::bind_variables(st.cx, forms, args, name, depth);
    match bound {
        Err(_) => {},
        Ok((vars, body)) => {
            let st2 = State { env: semantics::with_bindings(st.env, vars), cx: cx1 };
            lemma_implicit_progn(st.env.lexical.len(), body, Value::nil_spec(), st2, depth);
            assert((st.env.lexical + vars).take(st.env.lexical.len() as int) =~= st.env.lexical);
        },
    }
}

/// `call_closure` leaves the stacks as it found them.
pub proof fn lemma_call_closure(
    closure: Value,
    c: Cons,
    args: Seq<Value>,
    name: Value,
    st: State,
    depth: nat,
)
    ensures
        settled(st, semantics::call_closure(closure, c, args, name, st, depth).st),
    decreases depth, 4nat,
{
    let pushed = st.cx.roots.push(RootedView::Scalar(closure)).push(RootedView::Sequence(args));
    lemma_extends_refl(st.cx.roots);
    lemma_extends_push(st.cx.roots, st.cx.roots, RootedView::Scalar(closure));
    lemma_extends_push(
        st.cx.roots,
        st.cx.roots.push(RootedView::Scalar(closure)),
        RootedView::Sequence(args),
    );
    let rooted = CxView { roots: pushed, ..st.cx };
    let st1 = State { cx: rooted.collect(st.env, false), ..st };
    if c.car == semantics::sym(crate::symbol::CLOSURE) {
        lemma_call_forms(c.cdr, args, name, st1, depth);
    }
}

/// `call_subr` leaves the stacks as it found them.
pub proof fn lemma_call_subr(f: SubrFn, args: Seq<Value>, name: Value, st: State, depth: nat)
    ensures
        settled(st, semantics::call_subr(f, args, name, st, depth).st),
    decreases depth, 4nat,
{
    if !semantics::arity_ok(f, args.len()) {
    } else if !semantics::calls_back(f) {
        lemma_simple_subr(f, args, st, depth);
    } else if depth == 0 {
    } else if f.code == crate::cell::SUBR_FUNCALL {
        lemma_call(
            semantics::arg(args, 0),
            semantics::tail(args),
            Value::nil_spec(),
            st,
            (depth - 1) as nat,
        );
    } else if f.code == crate::cell::SUBR_APPLY {
        lemma_apply(semantics::arg(args, 0), semantics::tail(args), st, (depth - 1) as nat);
    } else if f.code == crate::cell::SUBR_EVAL {
        lemma_eval(semantics::arg(args, 0), st, (depth - 1) as nat);
    } else {
        lemma_macroexpand(
            semantics::arg(args, 0),
            if semantics::arg(args, 1) != Value::nil_spec() {
                Some(semantics::arg(args, 1))
            } else {
                None
            },
            st,
            (depth - 1) as nat,
        );
    }
}

/// `call` leaves the stacks as it found them.
pub proof fn lemma_call(func: Value, args: Seq<Value>, name: Value, st: State, depth: nat)
    ensures
        settled(st, semantics::call(func, args, name, st, depth).st),
    decreases depth, 5nat,
{
    match st.cx.object(func) {
        Object::SubrFn(f) => {
            lemma_call_subr(f, args, name, st, depth);
        },
        Object::Cons(c) => {
            lemma_call_closure(func, c, args, name, st, depth);
        },
        Object::Symbol(s) => match st.cx.follow_indirect(s) {
            Err(_) => {},
            Ok(f) => if depth > 0 {
                lemma_call(f, args, name, st, (depth - 1) as nat);
            },
        },
        _ => {},
    }
}

/// `call_macro` leaves the stacks as it found them.
pub proof fn lemma_call_macro(m: Value, args: Seq<Value>, name: Value, st: State, depth: nat)
    ensures
        settled(st, semantics::call_macro(m, args, name, st, depth).st),
    decreases depth, 6nat,
{
    match st.cx.object(m) {
        Object::Cons(c) => {
            if c.car == semantics::sym(crate::symbol::CLOSURE) {
                lemma_call(m, args, name, st, depth);
            } else {
                lemma_call_forms(m, args, name, st, depth);
            }
        },
        _ => {
            lemma_call(m, args, name, st, depth);
        },
    }
}

/// `eval_call` leaves the stacks as it found them.
pub proof fn lemma_eval_call(base: nat, name: Symbol, forms: Value, st: State, depth: nat)
    ensures
        settled(st, semantics::eval_call(base, name, forms, st, depth).st),
    decreases depth, 7nat,
{
    match st.cx.follow_indirect(name) {
        Err(_) => {},
        Ok(func) => match semantics::as_macro(st.cx, func) {
            Some(m) => match semantics::list_items(st.cx, forms, Seq::empty(), depth) {
                Err(_) => {},
                Ok(args) => {
                    lemma_call_macro(m, args, name.value, st, depth);
                    let expansion = semantics::call_macro(m, args, name.value, st, depth);
                    match expansion.res {
                        Err(_) => {},
                        Ok(form) => {
                            lemma_roots1(expansion.st, form);
                            lemma_guarded(base, form, expansion.st, expansion.st.root(form), depth);
                        },
                    }
                },
            },
            None => {
                lemma_eval_args(base, forms, Seq::empty(), st, depth);
                let values = semantics::eval_args(base, forms, Seq::empty(), st, depth);
                match values.res {
                    Err(_) => {},
                    Ok(args) => {
                        lemma_call(func, args, name.value, values.st, depth);
                    },
                }
            },
        },
    }
}

/// `apply` leaves the stacks as it found them.
pub proof fn lemma_apply(function: Value, arguments: Seq<Value>, st: State, depth: nat)
    ensures
        settled(st, semantics::apply(function, arguments, st, depth).st),
    decreases depth, 8nat,
{
    if arguments.len() == 0 {
        lemma_call(function, arguments, Value::nil_spec(), st, depth);
    } else {
        match semantics::list_items(st.cx, arguments.last(), arguments.drop_last(), depth) {
            Err(_) => {},
            Ok(args) => {
                lemma_call(function, args, Value::nil_spec(), st, depth);
            },
        }
    }
}

/// `macroexpand` leaves the stacks as it found them.
pub proof fn lemma_macroexpand(form: Value, environment: Option<Value>, st: State, depth: nat)
    ensures
        settled(st, semantics::macroexpand(form, environment, st, depth).st),
    decreases depth, 8nat,
{
    if environment.is_none() {
        match st.cx.object(form) {
            Object::Cons(c) => match st.cx.object(c.car) {
                Object::Symbol(name) => match st.cx.follow_indirect(name) {
                    Err(_) => {},
                    Ok(f) => match semantics::as_macro(st.cx, f) {
                        None => {},
                        Some(m) => match semantics::list_items(st.cx, c.cdr, Seq::empty(), depth) {
                            Err(_) => {},
                            Ok(args) => {
                                lemma_call_macro(m, args, c.car, st, depth);
                            },
                        },
                    },
                },
                _ => {},
            },
            _ => {},
        }
    }
}

/// `eval` leaves the stacks as it found them.
pub proof fn lemma_eval(form: Value, st: State, depth: nat)
    ensures
        settled(st, semantics::eval(form, st, depth).st),
    decreases depth, 8nat,
{
    let st1 = State { cx: st.cx.root(form).collect(st.env, false), ..st };
    lemma_roots1(st, form);
    lemma_guarded(st.env.lexical.len(), form, st, st1, depth);
}

} // verus!
