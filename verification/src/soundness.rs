//! No reference dangles: from a state in which every reference leads to a
//! cell of its kind, evaluation gives such a state again and, as value, such
//! a reference, whenever and however often the local block is collected on
//! the way.
use crate::block::BlockView;
use crate::cell::CellView;
use crate::context::CxView;
use crate::context::Object;
use crate::copying::grown;
use crate::copying::law_clone_is_copy;
use crate::copying::lemma_allocate;
use crate::copying::lemma_clone_sealed;
use crate::env::EnvView;
use crate::gc::edge;
use crate::gc::lemma_collected_wf;
use crate::gc::points_to;
use crate::gc::reachable;
use crate::laws::lemma_child_reachable;
use crate::laws::lemma_root_reachable;
use crate::root::lemma_root_values;
use crate::root::RootedView;
use crate::semantics;
use crate::cell::SubrFn;
use crate::context::Cons;
use crate::error::Failure;
use crate::semantics::Outcome;
use crate::semantics::State;
use crate::unwinding;
use crate::unwinding::extends;
use crate::unwinding::settled;
use crate::symbol::Symbol;
use crate::symbol_map::nonlocal;
use crate::symbol_map::sealed_cell;
use crate::value::lemma_pack;
use crate::value::Value;
use vstd::prelude::*;

verus! {

/// Whether `v` leads somewhere: it is no local reference, or it refers to
/// a cell of its kind.
pub open spec fn valid(cx: CxView, v: Value) -> bool {
    nonlocal(v) || cx.cell_of(v).is_some()
}

/// Whether every value of the sequence leads somewhere.
pub open spec fn all_valid(cx: CxView, items: Seq<Value>) -> bool {
    forall|j: int| 0 <= j < items.len() ==> valid(cx, #[trigger] items[j])
}

/// Whether every reference in a cell of the local block leads somewhere.
pub open spec fn sound_cells(cx: CxView) -> bool {
    forall|i: int, k: int|
        0 <= i < cx.block.cells.len() && 0 <= k < cx.block.cells[i].children().len() ==> valid(
            cx,
            #[trigger] cx.block.cells[i].children()[k],
        )
}

/// Whether every rooted reference leads somewhere.
pub open spec fn sound_roots(cx: CxView) -> bool {
    forall|i: int, v: Value|
        0 <= i < cx.roots.len() && #[trigger] cx.roots[i].values().contains(v) ==> valid(cx, v)
}

/// Whether every reference of the environment leads somewhere.
pub open spec fn sound_env(cx: CxView, env: EnvView) -> bool {
    forall|v: Value| #[trigger] env.root_set().contains(v) ==> valid(cx, v)
}

/// Whether no reference of the state dangles: the context is well formed,
/// and every reference in a cell, in the registry and in the environment
/// leads to a cell of its kind.
pub open spec fn sound(st: State) -> bool {
    &&& st.cx.wf()
    &&& sound_cells(st.cx)
    &&& sound_roots(st.cx)
    &&& sound_env(st.cx, st.env)
}

/// Whether every value that leads somewhere in `a` does so in `b`.
pub open spec fn carries(a: CxView, b: CxView) -> bool {
    forall|v: Value| #[trigger] valid(a, v) ==> valid(b, v)
}

/// What a cell refers to leads somewhere.
pub proof fn lemma_children_valid(cx: CxView, v: Value)
    requires
        cx.wf(),
        sound_cells(cx),
        cx.cell_of(v).is_some(),
    ensures
        all_valid(cx, cx.cell_of(v).unwrap().children()),
{
    let cell = cx.cell_of(v).unwrap();
    assert forall|k: int| 0 <= k < cell.children().len() implies valid(
        cx,
        #[trigger] cell.children()[k],
    ) by {
        if v.global_spec() {
            assert(sealed_cell(cx.symbols.block.cells[v.index_spec() as int]));
        } else {
            assert(valid(cx, cx.block.cells[v.index_spec() as int].children()[k]));
        }
    }
}

/// The parts of a list that leads somewhere lead somewhere.
pub proof fn lemma_split_valid(cx: CxView, list: Value)
    requires
        cx.wf(),
        sound_cells(cx),
    ensures
        semantics::split(cx, list) matches Some((first, rest)) ==> valid(cx, first) && valid(
            cx,
            rest,
        ),
        cx.object(list) matches Object::Cons(c) ==> valid(cx, c.car) && valid(cx, c.cdr),
{
    match cx.object(list) {
        Object::Cons(c) => {
            lemma_children_valid(cx, list);
            let cell = cx.cell_of(list).unwrap();
            assert(cell.children()[0] == c.car);
            assert(cell.children()[1] == c.cdr);
        },
        _ => {},
    }
}

/// Putting a cell whose references lead somewhere into the local block
/// keeps the cells sound, and the new reference leads to the cell.
pub proof fn lemma_add(cx: CxView, cell: CellView)
    requires
        cx.wf(),
        sound_cells(cx),
        !(cell is Free),
        all_valid(cx, cell.children()),
    ensures
        cx.add(cell).0.wf(),
        sound_cells(cx.add(cell).0),
        carries(cx, cx.add(cell).0),
        cx.add(cell).0.roots == cx.roots,
        cx.add(cell).0.symbols == cx.symbols,
        cx.add(cell).1 matches Ok(v) ==> valid(cx.add(cell).0, v),
{
    let after = cx.add(cell).0;
    lemma_allocate(cx.block, cell);
    match (cx.block.next_index(), cell.tag()) {
        (Some(i), Some(t)) => {
            lemma_pack(t, false, i);
            assert forall|v: Value| #[trigger] valid(cx, v) implies valid(after, v) by {
                if !nonlocal(v) {
                    let j = v.index_spec() as int;
                    assert(!(cx.block.cells[j] is Free));
                    assert(after.block.cells[j] == cx.block.cells[j]);
                }
            }
            assert forall|j: int, k: int|
                0 <= j < after.block.cells.len() && 0 <= k < after.block.cells[j].children().len() implies valid(
                after,
                #[trigger] after.block.cells[j].children()[k],
            ) by {
                if j == i {
                    assert(valid(cx, cell.children()[k]));
                } else {
                    assert(after.block.cells[j] == cx.block.cells[j]);
                    assert(valid(cx, cx.block.cells[j].children()[k]));
                }
            }
        },
        _ => {},
    }
}

/// Making a cons cell of values that lead somewhere keeps the cells sound.
pub proof fn lemma_cons(cx: CxView, car: Value, cdr: Value)
    requires
        cx.wf(),
        sound_cells(cx),
        valid(cx, car),
        valid(cx, cdr),
    ensures
        cx.cons(car, cdr).0.wf(),
        sound_cells(cx.cons(car, cdr).0),
        carries(cx, cx.cons(car, cdr).0),
        cx.cons(car, cdr).0.roots == cx.roots,
        cx.cons(car, cdr).0.symbols == cx.symbols,
        cx.cons(car, cdr).1 matches Ok(v) ==> valid(cx.cons(car, cdr).0, v),
{
    let cell = CellView::Cons { car, cdr, mutable: true };
    assert(cell.children()[0] == car && cell.children()[1] == cdr);
    lemma_add(cx, cell);
}

/// Changing a cons cell to values that lead somewhere keeps the cells
/// sound.
pub proof fn lemma_set_cons(cx: CxView, v: Value, car: Value, cdr: Value)
    requires
        cx.wf(),
        sound_cells(cx),
        valid(cx, car),
        valid(cx, cdr),
    ensures
        cx.set_cons(v, car, cdr).0.wf(),
        sound_cells(cx.set_cons(v, car, cdr).0),
        carries(cx, cx.set_cons(v, car, cdr).0),
        cx.set_cons(v, car, cdr).0.roots == cx.roots,
        cx.set_cons(v, car, cdr).0.symbols == cx.symbols,
{
    let after = cx.set_cons(v, car, cdr).0;
    if after != cx {
        let i = v.index_spec() as int;
        let cell = CellView::Cons { car, cdr, mutable: true };
        assert(cell.children()[0] == car && cell.children()[1] == cdr);
        assert(after.block.cells == cx.block.cells.update(i, cell));
        assert(after.block.wf()) by {
            assert forall|k: int| 0 <= k < after.block.free.len() implies (#[trigger] after.block.free[k])
                < after.block.cells.len() && after.block.cells[after.block.free[k] as int] is Free by {
                assert(cx.block.cells[cx.block.free[k] as int] is Free);
            }
        }
        assert forall|x: Value| #[trigger] valid(cx, x) implies valid(after, x) by {
            if !nonlocal(x) {
                let j = x.index_spec() as int;
                if j == i {
                    assert(after.block.cells[j].tag() == cx.block.cells[j].tag());
                }
            }
        }
        assert forall|j: int, k: int|
            0 <= j < after.block.cells.len() && 0 <= k < after.block.cells[j].children().len() implies valid(
            after,
            #[trigger] after.block.cells[j].children()[k],
        ) by {
            if j == i {
                assert(valid(cx, cell.children()[k]));
            } else {
                assert(valid(cx, cx.block.cells[j].children()[k]));
            }
        }
    }
}

/// Changing a slot of a cons cell to a value that leads somewhere keeps the
/// cells sound.
pub proof fn lemma_set_slot(cx: CxView, v: Value, x: Value)
    requires
        cx.wf(),
        sound_cells(cx),
        valid(cx, x),
    ensures
        cx.set_car(v, x).0.wf(),
        sound_cells(cx.set_car(v, x).0),
        carries(cx, cx.set_car(v, x).0),
        cx.set_car(v, x).0.roots == cx.roots,
        cx.set_car(v, x).0.symbols == cx.symbols,
        cx.set_cdr(v, x).0.wf(),
        sound_cells(cx.set_cdr(v, x).0),
        carries(cx, cx.set_cdr(v, x).0),
        cx.set_cdr(v, x).0.roots == cx.roots,
        cx.set_cdr(v, x).0.symbols == cx.symbols,
{
    match cx.object(v) {
        Object::Cons(c) => {
            lemma_split_valid(cx, v);
            lemma_set_cons(cx, v, x, c.cdr);
            lemma_set_cons(cx, v, c.car, x);
        },
        _ => {},
    }
}

/// A collection leaves no reference dangling: what the roots reach stays,
/// and nothing that stays refers to what goes.
pub proof fn lemma_collect(st: State, force: bool)
    requires
        sound(st),
    ensures
        sound(State { cx: st.cx.collect(st.env, force), ..st }),
{
    let cx = st.cx;
    let env = st.env;
    let after = cx.collect(env, force);
    if after != cx {
        let roots = cx.root_set(env);
        let cells = cx.block.cells;
        lemma_collected_wf(cx.block, roots);
        // whatever the roots hold leads to a cell that stays
        assert forall|v: Value| roots.contains(v) implies valid(after, v) by {
            if !env.root_set().contains(v) {
                lemma_root_values(cx.roots, v);
                let i = choose|i: int|
                    0 <= i < cx.roots.len() && (#[trigger] cx.roots[i]).values().contains(v);
                assert(cx.roots[i].values().contains(v));
            }
            lemma_kept_valid(cx, env, force, v);
        }
        assert forall|i: int, v: Value|
            0 <= i < after.roots.len() && #[trigger] after.roots[i].values().contains(v) implies valid(
            after,
            v,
        ) by {
            lemma_root_values(cx.roots, v);
            assert(roots.contains(v));
        }
        assert forall|i: int, k: int|
            0 <= i < after.block.cells.len() && 0 <= k < after.block.cells[i].children().len() implies valid(
            after,
            #[trigger] after.block.cells[i].children()[k],
        ) by {
            let child = after.block.cells[i].children()[k];
            assert(reachable(cells, roots, i));
            assert(cells[i].children()[k] == child);
            assert(valid(cx, child));
            if !nonlocal(child) {
                let j = child.index_spec() as int;
                assert(points_to(cells[i].children()[k], j));
                lemma_child_reachable(cells, roots, i, j);
            }
        }
    }
}

/// A value that the roots hold leads after a collection to the cell it led
/// to before.
pub proof fn lemma_kept_valid(cx: CxView, env: EnvView, force: bool, v: Value)
    requires
        cx.root_set(env).contains(v),
        valid(cx, v),
    ensures
        valid(cx.collect(env, force), v),
        cx.collect(env, force).cell_of(v) == cx.cell_of(v),
{
    if !nonlocal(v) {
        lemma_root_reachable(cx.block.cells, cx.root_set(env), v);
    }
}

/// Installing a function leaves no reference dangling.
pub proof fn lemma_set_func(cx: CxView, symbol: Symbol, func: Value, depth: nat)
    requires
        cx.wf(),
    ensures
        cx.set_func(symbol, func, depth).0.wf(),
        cx.set_func(symbol, func, depth).0.block == cx.block,
        cx.set_func(symbol, func, depth).0.roots == cx.roots,
        carries(cx, cx.set_func(symbol, func, depth).0),
{
    let after = cx.set_func(symbol, func, depth).0;
    law_clone_is_copy(cx.block.cells, cx.symbols.block, func, depth, 0);
    lemma_clone_sealed(cx.block.cells, cx.symbols.block, func, depth);
    assert forall|i: int| 0 <= i < after.symbols.map.len() implies ((#[trigger] after.symbols.map[i]).func matches Some(
        f,
    ) ==> nonlocal(f)) by {
        if i != symbol.id_spec() {
            assert(after.symbols.map[i].func == cx.symbols.map[i].func);
        }
    }
    assert forall|v: Value| #[trigger] valid(cx, v) implies valid(after, v) by {}
}

/// Rooting a value that leads somewhere keeps the registry sound.
pub proof fn lemma_root(cx: CxView, datum: RootedView)
    requires
        sound_roots(cx),
        forall|v: Value| datum.values().contains(v) ==> valid(cx, v),
    ensures
        sound_roots(CxView { roots: cx.roots.push(datum), ..cx }),
{
    let after = CxView { roots: cx.roots.push(datum), ..cx };
    assert forall|i: int, v: Value|
        0 <= i < after.roots.len() && #[trigger] after.roots[i].values().contains(v) implies valid(
        after,
        v,
    ) by {
        if i < cx.roots.len() {
            assert(cx.roots[i].values().contains(v));
            assert(valid(cx, v));
        } else {
            assert(valid(cx, v));
        }
    }
}

/// Taking roots out keeps the registry sound.
pub proof fn lemma_unroot(cx: CxView, len: nat)
    requires
        sound_roots(cx),
    ensures
        sound_roots(cx.unroot(len)),
{
    let after = cx.unroot(len);
    assert forall|i: int, v: Value|
        0 <= i < after.roots.len() && #[trigger] after.roots[i].values().contains(v) implies valid(
        after,
        v,
    ) by {
        assert(cx.roots[i].values().contains(v));
        assert(valid(cx, v));
    }
}

/// A context in which more values lead somewhere keeps registry and
/// environment sound.
pub proof fn lemma_carried(before: State, cx: CxView)
    requires
        sound_roots(before.cx),
        sound_env(before.cx, before.env),
        carries(before.cx, cx),
        cx.roots == before.cx.roots,
    ensures
        sound_roots(cx),
        sound_env(cx, before.env),
{
    assert forall|i: int, v: Value|
        0 <= i < cx.roots.len() && #[trigger] cx.roots[i].values().contains(v) implies valid(cx, v) by {
        assert(valid(before.cx, v));
    }
    assert forall|v: Value| #[trigger] before.env.root_set().contains(v) implies valid(cx, v) by {
        assert(valid(before.cx, v));
    }
}

/// Giving a variable a value that leads somewhere keeps the environment
/// sound.
pub proof fn lemma_set_var(cx: CxView, env: EnvView, symbol: Symbol, value: Value)
    requires
        sound_env(cx, env),
        valid(cx, value),
    ensures
        sound_env(cx, env.set_var(symbol, value)),
{
    let after = env.set_var(symbol, value);
    assert forall|v: Value| #[trigger] after.root_set().contains(v) implies valid(cx, v) by {
        if exists|id: nat| #[trigger] after.vars.contains_key(id) && after.vars[id] == v {
            let id = choose|id: nat| #[trigger] after.vars.contains_key(id) && after.vars[id] == v;
            if v != value {
                assert(env.vars.contains_key(id) && env.vars[id] == v);
                assert(env.root_set().contains(v));
            }
        } else if after.lexical.contains(v) {
            assert(env.root_set().contains(v));
        } else {
            let i = choose|i: int| 0 <= i < after.shadow.len() && (#[trigger] after.shadow[i]).1 == v;
            assert(env.shadow[i].1 == v);
            assert(env.root_set().contains(v));
        }
    }
}

/// The value of a variable leads somewhere.
pub proof fn lemma_get_var(cx: CxView, env: EnvView, symbol: Symbol)
    requires
        sound_env(cx, env),
    ensures
        env.get_var(symbol) matches Some(v) ==> valid(cx, v),
{
    match env.get_var(symbol) {
        Some(v) => {
            assert(env.vars.contains_key(symbol.id_spec()));
            assert(env.root_set().contains(v));
        },
        None => {},
    }
}

/// A lexical binding leads somewhere.
pub proof fn lemma_lexical(cx: CxView, env: EnvView, i: int)
    requires
        sound_env(cx, env),
        0 <= i < env.lexical.len(),
    ensures
        valid(cx, env.lexical[i]),
{
    assert(env.lexical.contains(env.lexical[i]));
    assert(env.root_set().contains(env.lexical[i]));
}

/// Adding a binding that leads somewhere keeps the environment sound.
pub proof fn lemma_bind(cx: CxView, env: EnvView, binding: Value)
    requires
        sound_env(cx, env),
        valid(cx, binding),
    ensures
        sound_env(cx, env.bind(binding)),
{
    let after = env.bind(binding);
    assert forall|v: Value| #[trigger] after.root_set().contains(v) implies valid(cx, v) by {
        if exists|id: nat| #[trigger] after.vars.contains_key(id) && after.vars[id] == v {
            let id = choose|id: nat| #[trigger] after.vars.contains_key(id) && after.vars[id] == v;
            assert(env.vars.contains_key(id) && env.vars[id] == v);
            assert(env.root_set().contains(v));
        } else if after.lexical.contains(v) {
            let i = choose|i: int| 0 <= i < after.lexical.len() && after.lexical[i] == v;
            if i < env.lexical.len() {
                assert(env.lexical[i] == v);
                assert(env.root_set().contains(v));
            }
        } else {
            let i = choose|i: int| 0 <= i < after.shadow.len() && (#[trigger] after.shadow[i]).1 == v;
            assert(env.shadow[i].1 == v);
            assert(env.root_set().contains(v));
        }
    }
}

/// Adding bindings that lead somewhere keeps the environment sound.
pub proof fn lemma_with_bindings(cx: CxView, env: EnvView, vars: Seq<Value>)
    requires
        sound_env(cx, env),
        all_valid(cx, vars),
    ensures
        sound_env(cx, semantics::with_bindings(env, vars)),
{
    let after = semantics::with_bindings(env, vars);
    assert forall|v: Value| #[trigger] after.root_set().contains(v) implies valid(cx, v) by {
        if exists|id: nat| #[trigger] after.vars.contains_key(id) && after.vars[id] == v {
            let id = choose|id: nat| #[trigger] after.vars.contains_key(id) && after.vars[id] == v;
            assert(env.vars.contains_key(id) && env.vars[id] == v);
            assert(env.root_set().contains(v));
        } else if after.lexical.contains(v) {
            let i = choose|i: int| 0 <= i < after.lexical.len() && after.lexical[i] == v;
            if i < env.lexical.len() {
                assert(env.lexical[i] == v);
                assert(env.root_set().contains(v));
            } else {
                assert(vars[i - env.lexical.len()] == v);
            }
        } else {
            let i = choose|i: int| 0 <= i < after.shadow.len() && (#[trigger] after.shadow[i]).1 == v;
            assert(env.shadow[i].1 == v);
            assert(env.root_set().contains(v));
        }
    }
}

/// Dropping bindings keeps the environment sound.
pub proof fn lemma_unbind(cx: CxView, env: EnvView, len: nat)
    requires
        sound_env(cx, env),
    ensures
        sound_env(cx, env.unbind(len)),
{
    let after = env.unbind(len);
    assert forall|v: Value| #[trigger] after.root_set().contains(v) implies valid(cx, v) by {
        if exists|id: nat| #[trigger] after.vars.contains_key(id) && after.vars[id] == v {
            let id = choose|id: nat| #[trigger] after.vars.contains_key(id) && after.vars[id] == v;
            assert(env.vars.contains_key(id) && env.vars[id] == v);
            assert(env.root_set().contains(v));
        } else if after.lexical.contains(v) {
            let i = choose|i: int| 0 <= i < after.lexical.len() && after.lexical[i] == v;
            assert(env.lexical[i] == v);
            assert(env.root_set().contains(v));
        } else {
            let i = choose|i: int| 0 <= i < after.shadow.len() && (#[trigger] after.shadow[i]).1 == v;
            assert(env.shadow[i].1 == v);
            assert(env.root_set().contains(v));
        }
    }
}

/// Saving a value that leads somewhere keeps the environment sound.
pub proof fn lemma_save(cx: CxView, env: EnvView, symbol: Symbol, value: Value)
    requires
        sound_env(cx, env),
        valid(cx, value),
    ensures
        sound_env(cx, env.save(symbol, value)),
{
    let after = env.save(symbol, value);
    assert forall|v: Value| #[trigger] after.root_set().contains(v) implies valid(cx, v) by {
        if exists|id: nat| #[trigger] after.vars.contains_key(id) && after.vars[id] == v {
            let id = choose|id: nat| #[trigger] after.vars.contains_key(id) && after.vars[id] == v;
            assert(env.vars.contains_key(id) && env.vars[id] == v);
            assert(env.root_set().contains(v));
        } else if after.lexical.contains(v) {
            assert(env.root_set().contains(v));
        } else {
            let i = choose|i: int| 0 <= i < after.shadow.len() && (#[trigger] after.shadow[i]).1 == v;
            if i < env.shadow.len() {
                assert(env.shadow[i].1 == v);
                assert(env.root_set().contains(v));
            }
        }
    }
}

/// Giving saved values back keeps the environment sound.
pub proof fn lemma_restore(cx: CxView, env: EnvView, len: nat)
    requires
        sound_env(cx, env),
    ensures
        sound_env(cx, env.restore(len)),
    decreases env.shadow.len(),
{
    if env.shadow.len() > len {
        let (symbol, value) = env.shadow.last();
        assert(env.shadow[env.shadow.len() - 1].1 == value);
        assert(env.root_set().contains(value));
        lemma_set_var(cx, env, symbol, value);
        let set = env.set_var(symbol, value);
        let next = EnvView { shadow: env.shadow.drop_last(), ..set };
        assert forall|v: Value| #[trigger] next.root_set().contains(v) implies valid(cx, v) by {
            if exists|id: nat| #[trigger] next.vars.contains_key(id) && next.vars[id] == v {
                let id = choose|id: nat| #[trigger] next.vars.contains_key(id) && next.vars[id] == v;
                assert(set.vars.contains_key(id) && set.vars[id] == v);
                assert(set.root_set().contains(v));
            } else if next.lexical.contains(v) {
                assert(set.root_set().contains(v));
            } else {
                let i = choose|i: int| 0 <= i < next.shadow.len() && (#[trigger] next.shadow[i]).1 == v;
                assert(set.shadow[i].1 == v);
                assert(set.root_set().contains(v));
            }
        }
        lemma_restore(cx, next, len);
    }
}

/// Whether `after` is a context that a sound context `before` can turn
/// into: well formed, with sound cells, with the same registry, and with
/// every value that led somewhere still leading somewhere.
pub open spec fn step(before: CxView, after: CxView) -> bool {
    &&& after.wf()
    &&& sound_cells(after)
    &&& carries(before, after)
    &&& after.roots == before.roots
}

/// A step keeps the state sound.
pub proof fn lemma_step(st: State, cx: CxView)
    requires
        sound(st),
        step(st.cx, cx),
    ensures
        sound(State { cx, ..st }),
{
    lemma_carried(st, cx);
}

/// Steps follow one another.
pub proof fn lemma_step_trans(a: CxView, b: CxView, c: CxView)
    requires
        step(a, b),
        step(b, c),
    ensures
        step(a, c),
{
    assert forall|v: Value| #[trigger] valid(a, v) implies valid(c, v) by {
        assert(valid(b, v));
    }
}

/// Every sound context is a step from itself.
pub proof fn lemma_step_refl(cx: CxView)
    requires
        cx.wf(),
        sound_cells(cx),
    ensures
        step(cx, cx),
{
}

/// Building a list of values that lead somewhere is a step, and the list
/// leads somewhere.
pub proof fn lemma_list_from(cx: CxView, items: Seq<Value>, from: nat, upto: nat, tail: Value)
    requires
        cx.wf(),
        sound_cells(cx),
        all_valid(cx, items),
        valid(cx, tail),
    ensures
        step(cx, semantics::list_from(cx, items, from, upto, tail).0),
        semantics::list_from(cx, items, from, upto, tail).1 matches Ok(v) ==> valid(
            semantics::list_from(cx, items, from, upto, tail).0,
            v,
        ),
    decreases upto,
{
    if !(upto <= from || upto > items.len()) {
        lemma_cons(cx, items[upto - 1], tail);
        let (cx1, r) = cx.cons(items[upto - 1], tail);
        match r {
            Err(_) => {},
            Ok(t) => {
                assert forall|j: int| 0 <= j < items.len() implies valid(cx1, #[trigger] items[j]) by {
                    assert(valid(cx, items[j]));
                }
                lemma_list_from(cx1, items, from, (upto - 1) as nat, t);
                lemma_step_trans(
                    cx,
                    cx1,
                    semantics::list_from(cx1, items, from, (upto - 1) as nat, t).0,
                );
            },
        }
    }
}

/// The elements of a list that leads somewhere lead somewhere.
pub proof fn lemma_list_items(cx: CxView, list: Value, done: Seq<Value>, depth: nat)
    requires
        cx.wf(),
        sound_cells(cx),
        valid(cx, list),
        all_valid(cx, done),
    ensures
        semantics::list_items(cx, list, done, depth) matches Ok(items) ==> all_valid(cx, items),
    decreases depth,
{
    match cx.object(list) {
        Object::Cons(c) => {
            if depth > 0 {
                lemma_split_valid(cx, list);
                let more = done.push(c.car);
                assert forall|j: int| 0 <= j < more.len() implies valid(cx, #[trigger] more[j]) by {
                    if j < done.len() {
                        assert(more[j] == done[j]);
                    }
                }
                lemma_list_items(cx, c.cdr, more, (depth - 1) as nat);
            }
        },
        _ => {},
    }
}

/// The pairs of a captured environment that leads somewhere lead somewhere.
pub proof fn lemma_parse_closure_env(cx: CxView, list: Value, done: Seq<Value>, depth: nat)
    requires
        cx.wf(),
        sound_cells(cx),
        valid(cx, list),
        all_valid(cx, done),
    ensures
        semantics::parse_closure_env(cx, list, done, depth) matches Ok(items) ==> all_valid(cx, items),
    decreases depth,
{
    match cx.object(list) {
        Object::Cons(c) => {
            lemma_split_valid(cx, list);
            match cx.object(c.car) {
                Object::Cons(_) => {
                    if depth > 0 {
                        let more = done.push(c.car);
                        assert forall|j: int| 0 <= j < more.len() implies valid(
                            cx,
                            #[trigger] more[j],
                        ) by {
                            if j < done.len() {
                                assert(more[j] == done[j]);
                            }
                        }
                        lemma_parse_closure_env(cx, c.cdr, more, (depth - 1) as nat);
                    }
                },
                _ => {},
            }
        },
        _ => {},
    }
}

/// A symbol is no reference.
pub proof fn lemma_symbol_valid(cx: CxView, s: Symbol)
    requires
        Symbol::of_value(s.value) == Some(s),
    ensures
        valid(cx, s.value),
{
}

/// Binding names to arguments that lead somewhere is a step, and the new
/// pairs lead somewhere.
pub proof fn lemma_bind_names(cx: CxView, names: Seq<Symbol>, args: Seq<Value>, k: nat, vars: Seq<Value>)
    requires
        cx.wf(),
        sound_cells(cx),
        all_valid(cx, args),
        all_valid(cx, vars),
        forall|j: int| 0 <= j < names.len() ==> valid(cx, (#[trigger] names[j]).value),
    ensures
        step(cx, semantics::bind_names(cx, names, args, k, vars).0),
        semantics::bind_names(cx, names, args, k, vars).1 matches Ok(all) ==> all_valid(
            semantics::bind_names(cx, names, args, k, vars).0,
            all,
        ),
    decreases names.len() - k,
{
    if k < names.len() {
        let value = if k < args.len() {
            args[k as int]
        } else {
            Value::nil_spec()
        };
        assert(valid(cx, names[k as int].value));
        lemma_nil_valid(cx);
        lemma_cons(cx, names[k as int].value, value);
        let (cx1, r) = cx.cons(names[k as int].value, value);
        match r {
            Err(_) => {},
            Ok(pair) => {
                let more = vars.push(pair);
                assert forall|j: int| 0 <= j < more.len() implies valid(cx1, #[trigger] more[j]) by {
                    if j < vars.len() {
                        assert(valid(cx, vars[j]));
                    }
                }
                assert forall|j: int| 0 <= j < args.len() implies valid(cx1, #[trigger] args[j]) by {
                    assert(valid(cx, args[j]));
                }
                assert forall|j: int| 0 <= j < names.len() implies valid(
                    cx1,
                    (#[trigger] names[j]).value,
                ) by {
                    assert(valid(cx, names[j].value));
                }
                lemma_bind_names(cx1, names, args, k + 1, more);
                lemma_step_trans(cx, cx1, semantics::bind_names(cx1, names, args, k + 1, more).0);
            },
        }
    }
}

/// `nil` and `t` are no references.
pub proof fn lemma_nil_valid(cx: CxView)
    ensures
        valid(cx, Value::nil_spec()),
        valid(cx, Value::true_spec()),
{
    assert(11u64 & 15 == 11) by (bit_vector);
    assert(12u64 & 15 == 12) by (bit_vector);
}

/// The symbol with a given number is no reference.
pub proof fn lemma_sym_valid(cx: CxView, id: u64)
    requires
        id <= crate::value::MAX_INDEX,
    ensures
        valid(cx, semantics::sym(id)),
{
    lemma_pack(crate::value::Tag::Symbol, false, id as nat);
}

/// An immediate integer is no reference.
pub proof fn lemma_fixnum_valid(cx: CxView, x: int)
    ensures
        valid(cx, Value::fixnum(x)),
{
    crate::value::lemma_fixnum(x);
}

/// The names that an argument list declares are symbols.
pub proof fn lemma_parse_args(cx: CxView, list: Value, done: semantics::ArgList, optional: bool, depth: nat)
    requires
        forall|j: int| 0 <= j < done.required.len() ==> valid(cx, (#[trigger] done.required[j]).value),
        forall|j: int| 0 <= j < done.optional.len() ==> valid(cx, (#[trigger] done.optional[j]).value),
        done.rest matches Some(r) ==> valid(cx, r.value),
    ensures
        semantics::parse_args(cx, list, done, optional, depth) matches Ok(names) ==> (forall|j: int|
            0 <= j < names.required.len() ==> valid(cx, (#[trigger] names.required[j]).value))
            && (forall|j: int|
            0 <= j < names.optional.len() ==> valid(cx, (#[trigger] names.optional[j]).value))
            && (names.rest matches Some(r) ==> valid(cx, r.value)),
    decreases depth,
{
    match cx.object(list) {
        Object::Cons(c) => match Symbol::of_value(c.car) {
            None => {},
            Some(s) => {
                if depth > 0 {
                    if s.id_spec() == crate::symbol::AND_OPTIONAL {
                        lemma_parse_args(cx, c.cdr, done, true, (depth - 1) as nat);
                    } else if s.id_spec() == crate::symbol::AND_REST {
                    } else if optional {
                        let more = semantics::ArgList { optional: done.optional.push(s), ..done };
                        assert forall|j: int| 0 <= j < more.optional.len() implies valid(
                            cx,
                            (#[trigger] more.optional[j]).value,
                        ) by {
                            if j < done.optional.len() {
                                assert(more.optional[j] == done.optional[j]);
                            }
                        }
                        lemma_parse_args(cx, c.cdr, more, optional, (depth - 1) as nat);
                    } else {
                        let more = semantics::ArgList { required: done.required.push(s), ..done };
                        assert forall|j: int| 0 <= j < more.required.len() implies valid(
                            cx,
                            (#[trigger] more.required[j]).value,
                        ) by {
                            if j < done.required.len() {
                                assert(more.required[j] == done.required[j]);
                            }
                        }
                        lemma_parse_args(cx, c.cdr, more, optional, (depth - 1) as nat);
                    }
                }
            },
        },
        _ => {},
    }
}

/// Binding the variables of a closure call is a step, and the variables
/// and the body lead somewhere.
pub proof fn lemma_bind_variables(cx: CxView, forms: Value, args: Seq<Value>, name: Value, depth: nat)
    requires
        cx.wf(),
        sound_cells(cx),
        valid(cx, forms),
        all_valid(cx, args),
    ensures
        step(cx, semantics::bind_variables(cx, forms, args, name, depth).0),
        semantics::bind_variables(cx, forms, args, name, depth).1 matches Ok((vars, body))
            ==> all_valid(semantics::bind_variables(cx, forms, args, name, depth).0, vars) && valid(
            semantics::bind_variables(cx, forms, args, name, depth).0,
            body,
        ),
{
    lemma_step_refl(cx);
    lemma_split_valid(cx, forms);
    match semantics::split(cx, forms) {
        None => {},
        Some((env, rest)) => {
            lemma_parse_closure_env(cx, env, Seq::empty(), depth);
            match semantics::parse_closure_env(cx, env, Seq::empty(), depth) {
                Err(_) => {},
                Ok(vars) => {
                    lemma_split_valid(cx, rest);
                    match semantics::split(cx, rest) {
                        None => {},
                        Some((arg_list, body)) => {
                            lemma_parse_args(
                                cx,
                                arg_list,
                                semantics::ArgList {
                                    required: Seq::empty(),
                                    optional: Seq::empty(),
                                    rest: None,
                                },
                                false,
                                depth,
                            );
                            match semantics::parse_arg_list(cx, arg_list, depth) {
                                Err(_) => {},
                                Ok(names) => {
                                    if args.len() >= names.required.len() {
                                        let positional = names.required + names.optional;
                                        assert forall|j: int| 0 <= j < positional.len() implies valid(
                                            cx,
                                            (#[trigger] positional[j]).value,
                                        ) by {
                                            if j < names.required.len() {
                                                assert(positional[j] == names.required[j]);
                                            } else {
                                                assert(positional[j] == names.optional[j
                                                    - names.required.len()]);
                                            }
                                        }
                                        lemma_bind_names(cx, positional, args, 0, vars);
                                        let (cx1, bound) = semantics::bind_names(
                                            cx,
                                            positional,
                                            args,
                                            0,
                                            vars,
                                        );
                                        match bound {
                                            Err(_) => {},
                                            Ok(vars1) => {
                                                assert(valid(cx1, body)) by {
                                                    assert(valid(cx, body));
                                                }
                                                match names.rest {
                                                    Some(r) => {
                                                        assert forall|j: int|
                                                            0 <= j < args.len() implies valid(
                                                            cx1,
                                                            #[trigger] args[j],
                                                        ) by {
                                                            assert(valid(cx, args[j]));
                                                        }
                                                        lemma_nil_valid(cx1);
                                                        lemma_list_from(
                                                            cx1,
                                                            args,
                                                            positional.len(),
                                                            args.len(),
                                                            Value::nil_spec(),
                                                        );
                                                        let (cx2, list) = semantics::list_from(
                                                            cx1,
                                                            args,
                                                            positional.len(),
                                                            args.len(),
                                                            Value::nil_spec(),
                                                        );
                                                        lemma_step_trans(cx, cx1, cx2);
                                                        match list {
                                                            Err(_) => {},
                                                            Ok(list) => {
                                                                assert(valid(cx2, r.value)) by {
                                                                    assert(valid(cx, r.value));
                                                                    assert(valid(cx1, r.value));
                                                                }
                                                                lemma_cons(cx2, r.value, list);
                                                                let (cx3, pair) = cx2.cons(
                                                                    r.value,
                                                                    list,
                                                                );
                                                                lemma_step_trans(cx, cx2, cx3);
                                                                match pair {
                                                                    Err(_) => {},
                                                                    Ok(pair) => {
                                                                        let all = vars1.push(pair);
                                                                        assert forall|j: int|
                                                                            0 <= j < all.len() implies valid(
                                                                            cx3,
                                                                            #[trigger] all[j],
                                                                        ) by {
                                                                            if j < vars1.len() {
                                                                                assert(valid(
                                                                                    cx1,
                                                                                    vars1[j],
                                                                                ));
                                                                                assert(valid(
                                                                                    cx2,
                                                                                    vars1[j],
                                                                                ));
                                                                            }
                                                                        }
                                                                        assert(valid(cx3, body)) by {
                                                                            assert(valid(cx2, body));
                                                                        }
                                                                    },
                                                                }
                                                            },
                                                        }
                                                    },
                                                    None => {},
                                                }
                                            },
                                        }
                                    }
                                },
                            }
                        },
                    }
                },
            }
        },
    }
}

/// The function that a symbol leads to is no local reference.
pub proof fn lemma_follow(cx: CxView, symbol: Symbol, origin: Symbol, hops: nat)
    requires
        cx.wf(),
    ensures
        crate::context::follow(cx.symbols.map, symbol, origin, hops) matches Ok(f) ==> nonlocal(f),
    decreases hops,
{
    match crate::symbol_map::func_of(cx.symbols.map, symbol) {
        None => {},
        Some(f) => {
            assert(cx.symbols.map[symbol.id_spec() as int].func == Some(f));
            match Symbol::of_value(f) {
                None => {},
                Some(next) => {
                    if hops > 0 {
                        lemma_follow(cx, next, origin, (hops - 1) as nat);
                    }
                },
            }
        },
    }
}

/// The newest binding of a symbol is one of the lexical bindings.
pub proof fn lemma_lookup(cx: CxView, env: EnvView, base: nat, top: nat, symbol: Symbol)
    requires
        sound_env(cx, env),
    ensures
        semantics::lookup_lexical(cx, env.lexical, base, top, symbol) matches Some(b) ==> valid(cx, b),
    decreases top,
{
    if !(top <= base || top > env.lexical.len()) {
        lemma_lexical(cx, env, top - 1);
        lemma_lookup(cx, env, base, (top - 1) as nat, symbol);
    }
}

/// The value of a variable leads somewhere.
pub proof fn lemma_var_ref(base: nat, symbol: Symbol, st: State)
    requires
        sound(st),
        Symbol::of_value(symbol.value) == Some(symbol),
    ensures
        semantics::var_ref(base, symbol, st) matches Ok(v) ==> valid(st.cx, v),
{
    lemma_lookup(st.cx, st.env, base, st.env.lexical.len(), symbol);
    match semantics::lookup_lexical(st.cx, st.env.lexical, base, st.env.lexical.len(), symbol) {
        Some(binding) => {
            lemma_split_valid(st.cx, binding);
        },
        None => {
            lemma_get_var(st.cx, st.env, symbol);
        },
    }
}

/// Assigning a value that leads somewhere keeps the state sound.
pub proof fn lemma_var_set(base: nat, symbol: Symbol, value: Value, st: State)
    requires
        sound(st),
        valid(st.cx, value),
    ensures
        sound(semantics::var_set(base, symbol, value, st).st),
        carries(st.cx, semantics::var_set(base, symbol, value, st).st.cx),
{
    match semantics::lookup_lexical(st.cx, st.env.lexical, base, st.env.lexical.len(), symbol) {
        Some(binding) => {
            lemma_set_slot(st.cx, binding, value);
            lemma_step(st, st.cx.set_cdr(binding, value).0);
        },
        None => {
            lemma_set_var(st.cx, st.env, symbol, value);
        },
    }
}

/// Binding a symbol to a value that leads somewhere keeps the state sound.
pub proof fn lemma_install(symbol: Symbol, value: Value, st: State)
    requires
        sound(st),
        valid(st.cx, value),
        Symbol::of_value(symbol.value) == Some(symbol),
    ensures
        sound(semantics::install(symbol, value, st).st),
        carries(st.cx, semantics::install(symbol, value, st).st.cx),
{
    match st.env.get_var(symbol) {
        Some(previous) => {
            lemma_get_var(st.cx, st.env, symbol);
            lemma_save(st.cx, st.env, symbol, previous);
            lemma_set_var(st.cx, st.env.save(symbol, previous), symbol, value);
        },
        None => {
            lemma_cons(st.cx, symbol.value, value);
            let (cx1, r) = st.cx.cons(symbol.value, value);
            lemma_step(st, cx1);
            match r {
                Err(_) => {},
                Ok(pair) => {
                    lemma_bind(cx1, st.env, pair);
                },
            }
        },
    }
}

/// Binding symbols to values that lead somewhere keeps the state sound.
pub proof fn lemma_install_all(pairs: Seq<(Symbol, Value)>, k: nat, st: State)
    requires
        sound(st),
        forall|j: int|
            0 <= j < pairs.len() ==> valid(st.cx, (#[trigger] pairs[j]).1) && Symbol::of_value(
                pairs[j].0.value,
            ) == Some(pairs[j].0),
    ensures
        sound(semantics::install_all(pairs, k, st).st),
    decreases pairs.len() - k,
{
    if k < pairs.len() {
        assert(valid(st.cx, pairs[k as int].1));
        lemma_install(pairs[k as int].0, pairs[k as int].1, st);
        let one = semantics::install(pairs[k as int].0, pairs[k as int].1, st);
        match one.res {
            Err(_) => {},
            Ok(_) => {
                assert forall|j: int| 0 <= j < pairs.len() implies valid(
                    one.st.cx,
                    (#[trigger] pairs[j]).1,
                ) && Symbol::of_value(pairs[j].0.value) == Some(pairs[j].0) by {
                    assert(valid(st.cx, pairs[j].1));
                }
                lemma_install_all(pairs, k + 1, one.st);
            },
        }
    }
}

/// `(function f)` keeps the state sound, and what it gives leads somewhere.
pub proof fn lemma_eval_function(base: nat, forms: Value, st: State)
    requires
        sound(st),
        valid(st.cx, forms),
    ensures
        sound(semantics::eval_function(base, forms, st).st),
        semantics::eval_function(base, forms, st).res matches Ok(v) ==> valid(
            semantics::eval_function(base, forms, st).st.cx,
            v,
        ),
{
    lemma_split_valid(st.cx, forms);
    match semantics::split(st.cx, forms) {
        None => {},
        Some((form, _)) => {
            lemma_split_valid(st.cx, form);
            match st.cx.object(form) {
                Object::Cons(f) => {
                    if f.car == semantics::sym(crate::symbol::LAMBDA) {
                        lemma_nil_valid(st.cx);
                        lemma_cons(st.cx, Value::true_spec(), Value::nil_spec());
                        let (cx1, end) = st.cx.cons(Value::true_spec(), Value::nil_spec());
                        lemma_step(st, cx1);
                        match end {
                            Err(_) => {},
                            Ok(end) => {
                                assert forall|j: int| 0 <= j < st.env.lexical.len() implies valid(
                                    cx1,
                                    #[trigger] st.env.lexical[j],
                                ) by {
                                    lemma_lexical(st.cx, st.env, j);
                                }
                                lemma_list_from(cx1, st.env.lexical, base, st.env.lexical.len(), end);
                                let (cx2, env) = semantics::capture_env(
                                    cx1,
                                    st.env.lexical,
                                    base,
                                    st.env.lexical.len(),
                                    end,
                                );
                                lemma_step_trans(st.cx, cx1, cx2);
                                lemma_step(st, cx2);
                                match env {
                                    Err(_) => {},
                                    Ok(env) => {
                                        assert(valid(cx2, f.cdr)) by {
                                            assert(valid(st.cx, f.cdr));
                                        }
                                        lemma_cons(cx2, env, f.cdr);
                                        let (cx3, body) = cx2.cons(env, f.cdr);
                                        lemma_step_trans(st.cx, cx2, cx3);
                                        lemma_step(st, cx3);
                                        match body {
                                            Err(_) => {},
                                            Ok(body) => {
                                                lemma_sym_valid(cx3, crate::symbol::CLOSURE);
                                                lemma_cons(
                                                    cx3,
                                                    semantics::sym(crate::symbol::CLOSURE),
                                                    body,
                                                );
                                                let (cx4, closure) = cx3.cons(
                                                    semantics::sym(crate::symbol::CLOSURE),
                                                    body,
                                                );
                                                lemma_step_trans(st.cx, cx3, cx4);
                                                lemma_step(st, cx4);
                                            },
                                        }
                                    },
                                }
                            },
                        }
                    }
                },
                _ => {},
            }
        },
    }
}

/// A built-in that neither evaluates nor calls keeps the state sound, and
/// what it gives leads somewhere.
pub proof fn lemma_simple_subr(f: crate::cell::SubrFn, args: Seq<Value>, st: State, depth: nat)
    requires
        sound(st),
        all_valid(st.cx, args),
    ensures
        sound(semantics::simple_subr(f, args, st, depth).st),
        semantics::simple_subr(f, args, st, depth).res matches Ok(v) ==> valid(
            semantics::simple_subr(f, args, st, depth).st.cx,
            v,
        ),
{
    lemma_nil_valid(st.cx);
    let a = semantics::arg(args, 0);
    let b = semantics::arg(args, 1);
    assert(valid(st.cx, a)) by {
        if args.len() > 0 {
            assert(valid(st.cx, args[0]));
        }
    }
    assert(valid(st.cx, b)) by {
        if args.len() > 1 {
            assert(valid(st.cx, args[1]));
        }
    }
    if f.code == crate::cell::SUBR_CONS {
        lemma_cons(st.cx, a, b);
        lemma_step(st, st.cx.cons(a, b).0);
    } else if f.code == crate::cell::SUBR_CAR || f.code == crate::cell::SUBR_CDR {
        lemma_split_valid(st.cx, a);
    } else if f.code == crate::cell::SUBR_SETCAR || f.code == crate::cell::SUBR_SETCDR {
        lemma_set_slot(st.cx, a, b);
        lemma_step(st, st.cx.set_car(a, b).0);
        lemma_step(st, st.cx.set_cdr(a, b).0);
    } else if f.code == crate::cell::SUBR_PLUS || f.code == crate::cell::SUBR_MINUS || f.code
        == crate::cell::SUBR_TIMES {
        match semantics::arith(st.cx, f.code, args) {
            Ok(v) => {
                lemma_arith(st.cx, f.code, args);
            },
            Err(_) => {},
        }
    } else if f.code == crate::cell::SUBR_EQ {
        lemma_nil_valid(st.cx);
    } else if f.code == crate::cell::SUBR_DEFALIAS {
        match Symbol::of_value(a) {
            None => {},
            Some(s) => {
                lemma_set_func(st.cx, s, b, depth);
                let cx1 = st.cx.set_func(s, b, depth).0;
                assert(sound_cells(cx1)) by {
                    assert forall|i: int, k: int|
                        0 <= i < cx1.block.cells.len() && 0 <= k < cx1.block.cells[i].children().len() implies valid(
                        cx1,
                        #[trigger] cx1.block.cells[i].children()[k],
                    ) by {
                        assert(valid(st.cx, st.cx.block.cells[i].children()[k]));
                    }
                }
                lemma_step(st, cx1);
            },
        }
    }
}

/// What arithmetic gives is an immediate.
pub proof fn lemma_arith(cx: CxView, code: u16, args: Seq<Value>)
    ensures
        semantics::arith(cx, code, args) matches Ok(v) ==> valid(cx, v),
{
    match semantics::arith(cx, code, args) {
        Ok(v) => {
            let r = if code == crate::cell::SUBR_PLUS {
                semantics::plus(cx, args, 0, 0)
            } else if code == crate::cell::SUBR_TIMES {
                semantics::times(cx, args, 0, 1)
            } else if args.len() == 0 {
                Ok(0int)
            } else if args.len() == 1 {
                semantics::minus(cx, args, 0, 0)
            } else {
                match semantics::as_int(cx, args[0]) {
                    Err(e) => Err(e),
                    Ok(x) => semantics::minus(cx, args, 1, x),
                }
            };
            match r {
                Ok(x) => {
                    lemma_fixnum_valid(cx, x);
                },
                Err(_) => {},
            }
        },
        Err(_) => {},
    }
}

/// Whether an outcome leaves no reference dangling and gives, if it gives
/// a value, one that leads somewhere.
pub open spec fn fine(out: Outcome<Value>) -> bool {
    sound(out.st) && (out.res matches Ok(v) ==> valid(out.st.cx, v))
}

/// The same for an outcome that gives values.
pub open spec fn fine_items(out: Outcome<Seq<Value>>) -> bool {
    sound(out.st) && (out.res matches Ok(items) ==> all_valid(out.st.cx, items))
}

/// The same for an outcome that gives a symbol with its value.
pub open spec fn fine_pair(out: Outcome<(Symbol, Value)>) -> bool {
    sound(out.st) && (out.res matches Ok(p) ==> valid(out.st.cx, p.1) && Symbol::of_value(
        p.0.value,
    ) == Some(p.0))
}

/// Whether `v` is rooted by itself.
pub open spec fn held(cx: CxView, v: Value) -> bool {
    exists|i: int| 0 <= i < cx.roots.len() && #[trigger] cx.roots[i] == RootedView::Scalar(v)
}

/// What is rooted in a sound registry leads somewhere.
pub proof fn lemma_held_valid(cx: CxView, v: Value)
    requires
        sound_roots(cx),
        held(cx, v),
    ensures
        valid(cx, v),
{
    let i = choose|i: int| 0 <= i < cx.roots.len() && #[trigger] cx.roots[i] == RootedView::Scalar(v);
    assert(cx.roots[i].values().contains(v));
}

/// What is rooted stays rooted when the registry grows.
pub proof fn lemma_held_extends(before: CxView, after: CxView, v: Value)
    requires
        held(before, v),
        extends(before.roots, after.roots),
    ensures
        held(after, v),
{
    let i = choose|i: int|
        0 <= i < before.roots.len() && #[trigger] before.roots[i] == RootedView::Scalar(v);
    assert(after.roots.take(before.roots.len() as int)[i] == after.roots[i]);
}

/// Rooting a value that leads somewhere keeps the state sound, and roots
/// the value.
pub proof fn lemma_state_root(st: State, v: Value)
    requires
        sound(st),
        valid(st.cx, v),
    ensures
        sound(st.root(v)),
        held(st.root(v).cx, v),
        extends(st.cx.roots, st.root(v).cx.roots),
        st.root(v).cx.block == st.cx.block,
        st.root(v).cx.symbols == st.cx.symbols,
        st.root(v).env == st.env,
{
    let datum = RootedView::Scalar(v);
    assert forall|x: Value| datum.values().contains(x) implies valid(st.cx, x) by {}
    lemma_root(st.cx, datum);
    assert(st.root(v).cx.roots[st.cx.roots.len() as int] == datum);
    unwinding::lemma_roots1(st, v);
}

/// Cutting the registry of a sound state back keeps the state sound.
pub proof fn lemma_state_unroot(st: State, len: nat)
    requires
        sound(st),
    ensures
        sound(st.unroot(len)),
        st.unroot(len).cx.block == st.cx.block,
        st.unroot(len).cx.symbols == st.cx.symbols,
        st.unroot(len).env == st.env,
{
    lemma_unroot(st.cx, len);
}

/// Cutting a registry that has grown back to where it was gives the
/// registry as it was.
pub proof fn lemma_cut_back(before: State, after: State)
    requires
        extends(before.cx.roots, after.cx.roots),
    ensures
        after.unroot(before.cx.roots.len()).cx.roots == before.cx.roots,
{
}

/// Evaluating a form while one value is rooted, and cutting the registry
/// back afterwards, keeps the state sound; the rooted value and the value
/// of the form lead somewhere afterwards.
pub proof fn lemma_guarded1(base: nat, form: Value, a: Value, st: State, depth: nat)
    requires
        sound(st),
        valid(st.cx, form),
        valid(st.cx, a),
    ensures
        ({
            let out = semantics::eval_form(base, form, st.root(a), depth);
            let st2 = out.st.unroot(st.cx.roots.len());
            &&& sound(st2)
            &&& settled(st, st2)
            &&& valid(st2.cx, a)
            &&& out.res matches Ok(v) ==> valid(st2.cx, v)
        }),
    decreases depth, 1nat,
{
    let st1 = st.root(a);
    lemma_state_root(st, a);
    lemma_eval_form(base, form, st1, depth);
    unwinding::lemma_eval_form(base, form, st1, depth);
    let out = semantics::eval_form(base, form, st1, depth);
    assert(held(out.st.cx, a));
    lemma_held_valid(out.st.cx, a);
    lemma_state_unroot(out.st, st.cx.roots.len());
    lemma_cut_back(st, out.st);
}

/// The same with two values rooted.
pub proof fn lemma_guarded2(base: nat, form: Value, a: Value, b: Value, st: State, depth: nat)
    requires
        sound(st),
        valid(st.cx, form),
        valid(st.cx, a),
        valid(st.cx, b),
    ensures
        ({
            let out = semantics::eval_form(base, form, st.root(a).root(b), depth);
            let st2 = out.st.unroot(st.cx.roots.len());
            &&& sound(st2)
            &&& settled(st, st2)
            &&& valid(st2.cx, a)
            &&& valid(st2.cx, b)
            &&& out.res matches Ok(v) ==> valid(st2.cx, v)
        }),
    decreases depth, 1nat,
{
    let st1 = st.root(a);
    lemma_state_root(st, a);
    let st12 = st1.root(b);
    lemma_state_root(st1, b);
    lemma_held_extends(st1.cx, st12.cx, a);
    unwinding::lemma_roots2(st, a, b);
    lemma_eval_form(base, form, st12, depth);
    unwinding::lemma_eval_form(base, form, st12, depth);
    let out = semantics::eval_form(base, form, st12, depth);
    assert(held(out.st.cx, a));
    assert(held(out.st.cx, b));
    lemma_held_valid(out.st.cx, a);
    lemma_held_valid(out.st.cx, b);
    lemma_state_unroot(out.st, st.cx.roots.len());
    lemma_cut_back(st, out.st);
}

/// Evaluating a form leaves no reference dangling.
pub proof fn lemma_eval_form(base: nat, form: Value, st: State, depth: nat)
    requires
        sound(st),
        valid(st.cx, form),
    ensures
        fine(semantics::eval_form(base, form, st, depth)),
    decreases depth, 0nat,
{
    if depth > 0 {
        match st.cx.object(form) {
            Object::Symbol(s) => {
                lemma_var_ref(base, s, st);
            },
            Object::Cons(c) => {
                lemma_split_valid(st.cx, form);
                lemma_eval_sexp(base, c, st, (depth - 1) as nat);
            },
            _ => {},
        }
    }
}

/// Evaluating a cons cell leaves no reference dangling.
pub proof fn lemma_eval_sexp(base: nat, c: Cons, st: State, depth: nat)
    requires
        sound(st),
        valid(st.cx, c.car),
        valid(st.cx, c.cdr),
    ensures
        fine(semantics::eval_sexp(base, c, st, depth)),
    decreases depth, 20nat,
{
    let st1 = st.root(c.cdr);
    lemma_state_root(st, c.cdr);
    match st.cx.object(c.car) {
        Object::Symbol(s) => {
            lemma_dispatch(base, s, c.cdr, st1, depth);
            lemma_state_unroot(semantics::dispatch(base, s, c.cdr, st1, depth).st, st.cx.roots.len());
        },
        _ => {
            lemma_state_unroot(st1, st.cx.roots.len());
        },
    }
}

/// Every special form and every call leaves no reference dangling.
pub proof fn lemma_dispatch(base: nat, s: Symbol, forms: Value, st: State, depth: nat)
    requires
        sound(st),
        valid(st.cx, forms),
        Symbol::of_value(s.value) == Some(s),
    ensures
        fine(semantics::dispatch(base, s, forms, st, depth)),
    decreases depth, 19nat,
{
    let id = s.id_spec();
    lemma_nil_valid(st.cx);
    if id == crate::symbol::QUOTE {
        lemma_split_valid(st.cx, forms);
    } else if id == crate::symbol::LET {
        lemma_eval_let(base, forms, true, st, depth);
    } else if id == crate::symbol::LET_STAR {
        lemma_eval_let(base, forms, false, st, depth);
    } else if id == crate::symbol::IF {
        lemma_eval_if(base, forms, st, depth);
    } else if id == crate::symbol::AND {
        lemma_eval_and(base, forms, Value::true_spec(), st, depth);
    } else if id == crate::symbol::OR {
        lemma_eval_or(base, forms, st, depth);
    } else if id == crate::symbol::COND {
        lemma_eval_cond(base, forms, st, depth);
    } else if id == crate::symbol::WHILE {
        lemma_eval_while(base, forms, st, depth);
    } else if id == crate::symbol::PROGN {
        lemma_implicit_progn(base, forms, Value::nil_spec(), st, depth);
    } else if id == crate::symbol::PROG1 {
        lemma_eval_progx(base, forms, 1, 0, None, st, depth);
    } else if id == crate::symbol::PROG2 {
        lemma_eval_progx(base, forms, 2, 0, None, st, depth);
    } else if id == crate::symbol::SETQ {
        lemma_setq(base, forms, 0, Value::nil_spec(), st, depth);
    } else if id == crate::symbol::DEFVAR {
        lemma_defvar(base, forms, false, st, depth);
    } else if id == crate::symbol::DEFCONST {
        lemma_defvar(base, forms, true, st, depth);
    } else if id == crate::symbol::FUNCTION {
        lemma_eval_function(base, forms, st);
    } else if id == crate::symbol::INTERACTIVE {
    } else if id == crate::symbol::CATCH {
        lemma_catch(base, forms, st, depth);
    } else if id == crate::symbol::CONDITION_CASE {
        lemma_condition_case(base, forms, st, depth);
    } else {
        lemma_eval_call(base, s, forms, st, depth);
    }
}

/// Evaluating forms in order leaves no reference dangling.
pub proof fn lemma_implicit_progn(base: nat, forms: Value, last: Value, st: State, depth: nat)
    requires
        sound(st),
        valid(st.cx, forms),
        valid(st.cx, last),
    ensures
        fine(semantics::implicit_progn(base, forms, last, st, depth)),
    decreases depth, 2nat,
{
    lemma_split_valid(st.cx, forms);
    match semantics::split(st.cx, forms) {
        None => {},
        Some((form, rest)) => if depth > 0 {
            lemma_guarded1(base, form, rest, st, (depth - 1) as nat);
            let out = semantics::eval_form(base, form, st.root(rest), (depth - 1) as nat);
            let st2 = out.st.unroot(st.cx.roots.len());
            match out.res {
                Err(_) => {},
                Ok(v) => {
                    lemma_implicit_progn(base, rest, v, st2, (depth - 1) as nat);
                },
            }
        },
    }
}

/// `and` leaves no reference dangling.
pub proof fn lemma_eval_and(base: nat, forms: Value, last: Value, st: State, depth: nat)
    requires
        sound(st),
        valid(st.cx, forms),
        valid(st.cx, last),
    ensures
        fine(semantics::eval_and(base, forms, last, st, depth)),
    decreases depth, 2nat,
{
    lemma_split_valid(st.cx, forms);
    match semantics::split(st.cx, forms) {
        None => {},
        Some((form, rest)) => if depth > 0 {
            lemma_guarded1(base, form, rest, st, (depth - 1) as nat);
            let out = semantics::eval_form(base, form, st.root(rest), (depth - 1) as nat);
            let st2 = out.st.unroot(st.cx.roots.len());
            match out.res {
                Err(_) => {},
                Ok(v) => {
                    if v != Value::nil_spec() {
                        lemma_eval_and(base, rest, v, st2, (depth - 1) as nat);
                    }
                },
            }
        },
    }
}

/// `or` leaves no reference dangling.
pub proof fn lemma_eval_or(base: nat, forms: Value, st: State, depth: nat)
    requires
        sound(st),
        valid(st.cx, forms),
    ensures
        fine(semantics::eval_or(base, forms, st, depth)),
    decreases depth, 2nat,
{
    lemma_split_valid(st.cx, forms);
    lemma_nil_valid(st.cx);
    match semantics::split(st.cx, forms) {
        None => {},
        Some((form, rest)) => if depth > 0 {
            lemma_guarded1(base, form, rest, st, (depth - 1) as nat);
            let out = semantics::eval_form(base, form, st.root(rest), (depth - 1) as nat);
            let st2 = out.st.unroot(st.cx.roots.len());
            match out.res {
                Err(_) => {},
                Ok(v) => {
                    if v == Value::nil_spec() {
                        lemma_eval_or(base, rest, st2, (depth - 1) as nat);
                    }
                },
            }
        },
    }
}

/// `if` leaves no reference dangling.
pub proof fn lemma_eval_if(base: nat, forms: Value, st: State, depth: nat)
    requires
        sound(st),
        valid(st.cx, forms),
    ensures
        fine(semantics::eval_if(base, forms, st, depth)),
    decreases depth, 3nat,
{
    lemma_split_valid(st.cx, forms);
    match semantics::split(st.cx, forms) {
        None => {},
        Some((condition, rest)) => {
            lemma_split_valid(st.cx, rest);
            match semantics::split(st.cx, rest) {
                None => {},
                Some((then, otherwise)) => {
                    lemma_guarded2(base, condition, then, otherwise, st, depth);
                    let out = semantics::eval_form(
                        base,
                        condition,
                        st.root(then).root(otherwise),
                        depth,
                    );
                    let st2 = out.st.unroot(st.cx.roots.len());
                    match out.res {
                        Err(_) => {},
                        Ok(v) => {
                            if v != Value::nil_spec() {
                                lemma_eval_form(base, then, st2, depth);
                            } else {
                                lemma_nil_valid(st2.cx);
                                lemma_implicit_progn(base, otherwise, Value::nil_spec(), st2, depth);
                            }
                        },
                    }
                },
            }
        },
    }
}

/// `cond` leaves no reference dangling.
pub proof fn lemma_eval_cond(base: nat, forms: Value, st: State, depth: nat)
    requires
        sound(st),
        valid(st.cx, forms),
    ensures
        fine(semantics::eval_cond(base, forms, st, depth)),
    decreases depth, 3nat,
{
    lemma_split_valid(st.cx, forms);
    lemma_nil_valid(st.cx);
    match semantics::split(st.cx, forms) {
        None => {},
        Some((clause, rest)) => if depth > 0 {
            lemma_split_valid(st.cx, clause);
            match semantics::split(st.cx, clause) {
                None => {
                    lemma_eval_cond(base, rest, st, (depth - 1) as nat);
                },
                Some((test, body)) => {
                    lemma_guarded2(base, test, rest, body, st, (depth - 1) as nat);
                    let out = semantics::eval_form(
                        base,
                        test,
                        st.root(rest).root(body),
                        (depth - 1) as nat,
                    );
                    let st2 = out.st.unroot(st.cx.roots.len());
                    match out.res {
                        Err(_) => {},
                        Ok(v) => {
                            if v != Value::nil_spec() {
                                lemma_nil_valid(st2.cx);
                                lemma_implicit_progn(
                                    base,
                                    body,
                                    Value::nil_spec(),
                                    st2,
                                    (depth - 1) as nat,
                                );
                            } else {
                                lemma_eval_cond(base, rest, st2, (depth - 1) as nat);
                            }
                        },
                    }
                },
            }
        },
    }
}

/// The loop of `while` leaves no reference dangling, as long as its
/// condition and its body are rooted.
pub proof fn lemma_while_loop(base: nat, condition: Value, body: Value, st: State, depth: nat)
    requires
        sound(st),
        held(st.cx, condition),
        held(st.cx, body),
    ensures
        fine(semantics::while_loop(base, condition, body, st, depth)),
    decreases depth, 3nat,
{
    if depth > 0 {
        lemma_held_valid(st.cx, condition);
        lemma_eval_form(base, condition, st, (depth - 1) as nat);
        unwinding::lemma_eval_form(base, condition, st, (depth - 1) as nat);
        let out = semantics::eval_form(base, condition, st, (depth - 1) as nat);
        match out.res {
            Err(_) => {},
            Ok(v) => {
                if v != Value::nil_spec() {
                    assert(held(out.st.cx, body));
                    assert(held(out.st.cx, condition));
                    lemma_held_valid(out.st.cx, body);
                    lemma_nil_valid(out.st.cx);
                    lemma_implicit_progn(base, body, Value::nil_spec(), out.st, (depth - 1) as nat);
                    unwinding::lemma_implicit_progn(
                        base,
                        body,
                        Value::nil_spec(),
                        out.st,
                        (depth - 1) as nat,
                    );
                    let done = semantics::implicit_progn(
                        base,
                        body,
                        Value::nil_spec(),
                        out.st,
                        (depth - 1) as nat,
                    );
                    match done.res {
                        Err(_) => {},
                        Ok(_) => {
                            assert(held(done.st.cx, body));
                            assert(held(done.st.cx, condition));
                            lemma_while_loop(base, condition, body, done.st, (depth - 1) as nat);
                        },
                    }
                }
            },
        }
    }
}

/// `while` leaves no reference dangling.
pub proof fn lemma_eval_while(base: nat, forms: Value, st: State, depth: nat)
    requires
        sound(st),
        valid(st.cx, forms),
    ensures
        fine(semantics::eval_while(base, forms, st, depth)),
    decreases depth, 4nat,
{
    lemma_split_valid(st.cx, forms);
    match st.cx.object(forms) {
        Object::Cons(c) => {
            let st1 = st.root(c.car);
            lemma_state_root(st, c.car);
            let st2 = st1.root(c.cdr);
            lemma_state_root(st1, c.cdr);
            lemma_held_extends(st1.cx, st2.cx, c.car);
            lemma_while_loop(base, c.car, c.cdr, st2, depth);
            lemma_state_unroot(
                semantics::while_loop(base, c.car, c.cdr, st2, depth).st,
                st.cx.roots.len(),
            );
        },
        _ => {},
    }
}

/// `prog1` and `prog2` leave no reference dangling.
pub proof fn lemma_eval_progx(
    base: nat,
    forms: Value,
    n: u16,
    count: nat,
    kept: Option<Value>,
    st: State,
    depth: nat,
)
    requires
        sound(st),
        valid(st.cx, forms),
        kept matches Some(k) ==> valid(st.cx, k),
    ensures
        fine(semantics::eval_progx(base, forms, n, count, kept, st, depth)),
    decreases depth, 3nat,
{
    lemma_split_valid(st.cx, forms);
    match semantics::split(st.cx, forms) {
        None => {},
        Some((form, rest)) => if depth > 0 {
            match kept {
                Some(k) => {
                    lemma_guarded2(base, form, rest, k, st, (depth - 1) as nat);
                },
                None => {
                    lemma_guarded1(base, form, rest, st, (depth - 1) as nat);
                },
            }
            let st1 = match kept {
                Some(k) => st.root(rest).root(k),
                None => st.root(rest),
            };
            let out = semantics::eval_form(base, form, st1, (depth - 1) as nat);
            let st2 = out.st.unroot(st.cx.roots.len());
            match out.res {
                Err(_) => {},
                Ok(v) => {
                    lemma_eval_progx(
                        base,
                        rest,
                        n,
                        count + 1,
                        if count + 1 == n {
                            Some(v)
                        } else {
                            kept
                        },
                        st2,
                        (depth - 1) as nat,
                    );
                },
            }
        },
    }
}

/// `setq` leaves no reference dangling.
pub proof fn lemma_setq(base: nat, forms: Value, count: nat, last: Value, st: State, depth: nat)
    requires
        sound(st),
        valid(st.cx, forms),
        valid(st.cx, last),
    ensures
        fine(semantics::setq(base, forms, count, last, st, depth)),
    decreases depth, 3nat,
{
    lemma_split_valid(st.cx, forms);
    match semantics::split(st.cx, forms) {
        None => {},
        Some((var, rest)) => {
            lemma_split_valid(st.cx, rest);
            match semantics::split(st.cx, rest) {
                None => {},
                Some((form, rest2)) => match Symbol::of_value(var) {
                    None => {},
                    Some(s) => if depth > 0 {
                        lemma_guarded1(base, form, rest2, st, (depth - 1) as nat);
                        let out = semantics::eval_form(base, form, st.root(rest2), (depth - 1) as nat);
                        let st2 = out.st.unroot(st.cx.roots.len());
                        match out.res {
                            Err(_) => {},
                            Ok(v) => {
                                lemma_var_set(base, s, v, st2);
                                let set = semantics::var_set(base, s, v, st2);
                                match set.res {
                                    Err(_) => {},
                                    Ok(_) => {
                                        assert(valid(set.st.cx, rest2)) by {
                                            assert(valid(st2.cx, rest2));
                                        }
                                        assert(valid(set.st.cx, v)) by {
                                            assert(valid(st2.cx, v));
                                        }
                                        lemma_setq(
                                            base,
                                            rest2,
                                            count + 2,
                                            v,
                                            set.st,
                                            (depth - 1) as nat,
                                        );
                                    },
                                }
                            },
                        }
                    },
                },
            }
        },
    }
}

/// `defvar` and `defconst` leave no reference dangling.
pub proof fn lemma_defvar(base: nat, forms: Value, constant: bool, st: State, depth: nat)
    requires
        sound(st),
        valid(st.cx, forms),
    ensures
        fine(semantics::defvar(base, forms, constant, st, depth)),
    decreases depth, 3nat,
{
    lemma_split_valid(st.cx, forms);
    lemma_nil_valid(st.cx);
    match semantics::split(st.cx, forms) {
        None => {},
        Some((x, rest)) => match Symbol::of_value(x) {
            None => {},
            Some(name) => {
                lemma_split_valid(st.cx, rest);
                match semantics::split(st.cx, rest) {
                    Some((form, _)) => {
                        lemma_eval_form(base, form, st, depth);
                        let out = semantics::eval_form(base, form, st, depth);
                        match out.res {
                            Err(_) => {},
                            Ok(v) => {
                                lemma_set_var(out.st.cx, out.st.env, name, v);
                            },
                        }
                    },
                    None => {
                        lemma_set_var(st.cx, st.env, name, Value::nil_spec());
                    },
                }
            },
        },
    }
}

/// `catch` leaves no reference dangling.
pub proof fn lemma_catch(base: nat, forms: Value, st: State, depth: nat)
    requires
        sound(st),
        valid(st.cx, forms),
    ensures
        fine(semantics::catch(base, forms, st, depth)),
    decreases depth, 3nat,
{
    lemma_split_valid(st.cx, forms);
    match semantics::split(st.cx, forms) {
        None => {},
        Some((tag, body)) => {
            lemma_guarded1(base, tag, body, st, depth);
            let out = semantics::eval_form(base, tag, st.root(body), depth);
            let st2 = out.st.unroot(st.cx.roots.len());
            match out.res {
                Err(_) => {},
                Ok(_) => {
                    lemma_nil_valid(st2.cx);
                    lemma_implicit_progn(base, body, Value::nil_spec(), st2, depth);
                },
            }
        },
    }
}

/// One binding `(sym expr)` of `let` leaves no reference dangling.
pub proof fn lemma_let_bind_value(base: nat, c: Cons, st: State, depth: nat)
    requires
        sound(st),
        valid(st.cx, c.car),
        valid(st.cx, c.cdr),
    ensures
        fine_pair(semantics::let_bind_value(base, c, st, depth)),
    decreases depth, 3nat,
{
    lemma_split_valid(st.cx, c.cdr);
    lemma_nil_valid(st.cx);
    match semantics::split(st.cx, c.cdr) {
        Some((form, rest)) => {
            lemma_guarded1(base, form, rest, st, depth);
        },
        None => {},
    }
}

/// One binding of `let` leaves no reference dangling.
pub proof fn lemma_let_binding(base: nat, binding: Value, st: State, depth: nat)
    requires
        sound(st),
        valid(st.cx, binding),
    ensures
        fine_pair(semantics::let_binding(base, binding, st, depth)),
    decreases depth, 4nat,
{
    lemma_nil_valid(st.cx);
    match st.cx.object(binding) {
        Object::Cons(c) => {
            lemma_split_valid(st.cx, binding);
            lemma_let_bind_value(base, c, st, depth);
        },
        _ => {},
    }
}

/// One binding of `let`, evaluated while the other bindings are rooted,
/// leaves no reference dangling, and the other bindings lead somewhere
/// afterwards.
pub proof fn lemma_one_binding(base: nat, binding: Value, rest: Value, st: State, depth: nat)
    requires
        sound(st),
        valid(st.cx, binding),
        valid(st.cx, rest),
    ensures
        ({
            let one = semantics::let_binding(base, binding, st.root(rest), depth);
            let st2 = one.st.unroot(st.cx.roots.len());
            &&& sound(st2)
            &&& settled(st, st2)
            &&& valid(st2.cx, rest)
            &&& one.res matches Ok(p) ==> valid(st2.cx, p.1) && Symbol::of_value(p.0.value) == Some(
                p.0,
            )
        }),
    decreases depth, 5nat,
{
    let st1 = st.root(rest);
    lemma_state_root(st, rest);
    lemma_let_binding(base, binding, st1, depth);
    unwinding::lemma_let_binding(base, binding, st1, depth);
    let one = semantics::let_binding(base, binding, st1, depth);
    assert(held(one.st.cx, rest));
    lemma_held_valid(one.st.cx, rest);
    lemma_state_unroot(one.st, st.cx.roots.len());
    lemma_cut_back(st, one.st);
}

/// The bindings of `let*` leave no reference dangling.
pub proof fn lemma_let_bind_serial(base: nat, bindings: Value, st: State, depth: nat)
    requires
        sound(st),
        valid(st.cx, bindings),
    ensures
        sound(semantics::let_bind_serial(base, bindings, st, depth).st),
    decreases depth, 6nat,
{
    lemma_split_valid(st.cx, bindings);
    match semantics::split(st.cx, bindings) {
        None => {},
        Some((binding, rest)) => if depth > 0 {
            lemma_one_binding(base, binding, rest, st, (depth - 1) as nat);
            let one = semantics::let_binding(base, binding, st.root(rest), (depth - 1) as nat);
            let st2 = one.st.unroot(st.cx.roots.len());
            match one.res {
                Err(_) => {},
                Ok((symbol, value)) => {
                    lemma_install(symbol, value, st2);
                    let bound = semantics::install(symbol, value, st2);
                    match bound.res {
                        Err(_) => {},
                        Ok(_) => {
                            assert(valid(bound.st.cx, rest)) by {
                                assert(valid(st2.cx, rest));
                            }
                            lemma_let_bind_serial(base, rest, bound.st, (depth - 1) as nat);
                        },
                    }
                },
            }
        },
    }
}

/// Whether the value of every pair is rooted by itself, and every symbol
/// is one.
pub open spec fn pairs_held(cx: CxView, pairs: Seq<(Symbol, Value)>) -> bool {
    forall|j: int|
        0 <= j < pairs.len() ==> held(cx, (#[trigger] pairs[j]).1) && Symbol::of_value(
            pairs[j].0.value,
        ) == Some(pairs[j].0)
}

/// The values of the bindings of `let` leave no reference dangling, and
/// each of them is rooted.
pub proof fn lemma_let_values(
    base: nat,
    bindings: Value,
    done: Seq<(Symbol, Value)>,
    st: State,
    depth: nat,
)
    requires
        sound(st),
        valid(st.cx, bindings),
        pairs_held(st.cx, done),
    ensures
        sound(semantics::let_values(base, bindings, done, st, depth).st),
        semantics::let_values(base, bindings, done, st, depth).res matches Ok(pairs) ==> pairs_held(
            semantics::let_values(base, bindings, done, st, depth).st.cx,
            pairs,
        ),
    decreases depth, 6nat,
{
    lemma_split_valid(st.cx, bindings);
    match semantics::split(st.cx, bindings) {
        None => {},
        Some((binding, rest)) => if depth > 0 {
            lemma_one_binding(base, binding, rest, st, (depth - 1) as nat);
            let one = semantics::let_binding(base, binding, st.root(rest), (depth - 1) as nat);
            let st2 = one.st.unroot(st.cx.roots.len());
            match one.res {
                Err(_) => {},
                Ok((symbol, value)) => {
                    let st3 = st2.root(value);
                    lemma_state_root(st2, value);
                    let more = done.push((symbol, value));
                    assert forall|j: int| 0 <= j < more.len() implies held(
                        st3.cx,
                        (#[trigger] more[j]).1,
                    ) && Symbol::of_value(more[j].0.value) == Some(more[j].0) by {
                        if j < done.len() {
                            assert(more[j] == done[j]);
                            assert(held(st.cx, done[j].1));
                            assert(st2.cx.roots == st.cx.roots);
                            lemma_held_extends(st2.cx, st3.cx, done[j].1);
                        }
                    }
                    lemma_let_values(base, rest, more, st3, (depth - 1) as nat);
                },
            }
        },
    }
}

/// The bindings of `let` leave no reference dangling.
pub proof fn lemma_let_bind_parallel(base: nat, bindings: Value, st: State, depth: nat)
    requires
        sound(st),
        valid(st.cx, bindings),
    ensures
        sound(semantics::let_bind_parallel(base, bindings, st, depth).st),
    decreases depth, 7nat,
{
    lemma_let_values(base, bindings, Seq::empty(), st, depth);
    let values = semantics::let_values(base, bindings, Seq::empty(), st, depth);
    match values.res {
        Err(_) => {
            lemma_state_unroot(values.st, st.cx.roots.len());
        },
        Ok(pairs) => {
            assert forall|j: int| 0 <= j < pairs.len() implies valid(
                values.st.cx,
                (#[trigger] pairs[j]).1,
            ) && Symbol::of_value(pairs[j].0.value) == Some(pairs[j].0) by {
                lemma_held_valid(values.st.cx, pairs[j].1);
            }
            lemma_install_all(pairs, 0, values.st);
            lemma_state_unroot(semantics::install_all(pairs, 0, values.st).st, st.cx.roots.len());
        },
    }
}

/// `let` and `let*` leave no reference dangling.
pub proof fn lemma_eval_let(base: nat, forms: Value, parallel: bool, st: State, depth: nat)
    requires
        sound(st),
        valid(st.cx, forms),
    ensures
        fine(semantics::eval_let(base, forms, parallel, st, depth)),
    decreases depth, 8nat,
{
    lemma_split_valid(st.cx, forms);
    match semantics::split(st.cx, forms) {
        None => {},
        Some((bindings, body)) => {
            let st1 = st.root(body);
            lemma_state_root(st, body);
            let bound = if parallel {
                lemma_let_bind_parallel(base, bindings, st1, depth);
                unwinding::lemma_let_bind_parallel(base, bindings, st1, depth);
                semantics::let_bind_parallel(base, bindings, st1, depth)
            } else {
                lemma_let_bind_serial(base, bindings, st1, depth);
                unwinding::lemma_let_bind_serial(base, bindings, st1, depth);
                semantics::let_bind_serial(base, bindings, st1, depth)
            };
            let out = match bound.res {
                Err(e) => Outcome { st: bound.st, res: Err(e) },
                Ok(_) => {
                    assert(held(bound.st.cx, body));
                    lemma_held_valid(bound.st.cx, body);
                    lemma_nil_valid(bound.st.cx);
                    lemma_implicit_progn(base, body, Value::nil_spec(), bound.st, depth);
                    semantics::implicit_progn(base, body, Value::nil_spec(), bound.st, depth)
                },
            };
            lemma_unbind(out.st.cx, out.st.env, st.env.lexical.len());
            lemma_restore(out.st.cx, out.st.env.unbind(st.env.lexical.len()), st.env.shadow.len());
            lemma_unroot(out.st.cx, st.cx.roots.len());
        },
    }
}

/// A handler of `condition-case` leaves no reference dangling.
pub proof fn lemma_run_handler(base: nat, var: Value, body: Value, e: Failure, st: State, depth: nat)
    requires
        sound(st),
        valid(st.cx, var),
        valid(st.cx, body),
    ensures
        fine(semantics::run_handler(base, var, body, e, st, depth)),
    decreases depth, 3nat,
{
    let cell = CellView::String(e.error.describe_spec());
    assert(cell.children() =~= Seq::empty());
    lemma_add(st.cx, cell);
    let (cx1, text) = st.cx.add(cell);
    lemma_step(st, cx1);
    match text {
        Err(_) => {},
        Ok(text) => {
            lemma_sym_valid(cx1, crate::symbol::ERROR);
            lemma_cons(cx1, semantics::sym(crate::symbol::ERROR), text);
            let (cx2, datum) = cx1.cons(semantics::sym(crate::symbol::ERROR), text);
            lemma_step_trans(st.cx, cx1, cx2);
            lemma_step(st, cx2);
            match datum {
                Err(_) => {},
                Ok(datum) => {
                    assert(valid(cx2, var)) by {
                        assert(valid(st.cx, var));
                        assert(valid(cx1, var));
                    }
                    lemma_cons(cx2, var, datum);
                    let (cx3, pair) = cx2.cons(var, datum);
                    lemma_step_trans(st.cx, cx2, cx3);
                    lemma_step(st, cx3);
                    match pair {
                        Err(_) => {},
                        Ok(pair) => {
                            lemma_bind(cx3, st.env, pair);
                            let st3 = State { env: st.env.bind(pair), cx: cx3 };
                            lemma_nil_valid(cx3);
                            let out = if semantics::is_list(cx3, body) {
                                assert(valid(cx3, body)) by {
                                    assert(valid(st.cx, body));
                                }
                                lemma_implicit_progn(base, body, Value::nil_spec(), st3, depth);
                                semantics::implicit_progn(base, body, Value::nil_spec(), st3, depth)
                            } else {
                                semantics::ok(st3, Value::nil_spec())
                            };
                            lemma_unbind(out.st.cx, out.st.env, st.env.lexical.len());
                        },
                    }
                },
            }
        },
    }
}

/// Going through the handlers of `condition-case` leaves no reference
/// dangling.
pub proof fn lemma_handle(base: nat, var: Value, handlers: Value, e: Failure, st: State, depth: nat)
    requires
        sound(st),
        valid(st.cx, var),
        valid(st.cx, handlers),
    ensures
        fine(semantics::handle(base, var, handlers, e, st, depth)),
    decreases depth, 4nat,
{
    lemma_split_valid(st.cx, handlers);
    match semantics::split(st.cx, handlers) {
        None => {},
        Some((handler, rest)) => if depth > 0 {
            match st.cx.object(handler) {
                Object::Cons(h) => {
                    lemma_split_valid(st.cx, handler);
                    lemma_run_handler(base, var, h.cdr, e, st, (depth - 1) as nat);
                },
                Object::Nil => {
                    lemma_handle(base, var, rest, e, st, (depth - 1) as nat);
                },
                _ => {},
            }
        },
    }
}

/// `condition-case` leaves no reference dangling.
pub proof fn lemma_condition_case(base: nat, forms: Value, st: State, depth: nat)
    requires
        sound(st),
        valid(st.cx, forms),
    ensures
        fine(semantics::condition_case(base, forms, st, depth)),
    decreases depth, 5nat,
{
    lemma_split_valid(st.cx, forms);
    match semantics::split(st.cx, forms) {
        None => {},
        Some((var, rest)) => {
            lemma_split_valid(st.cx, rest);
            match semantics::split(st.cx, rest) {
                None => {},
                Some((body, handlers)) => {
                    lemma_guarded2(base, body, var, handlers, st, depth);
                    let out = semantics::eval_form(base, body, st.root(var).root(handlers), depth);
                    let st2 = out.st.unroot(st.cx.roots.len());
                    match out.res {
                        Ok(_) => {},
                        Err(e) => {
                            if !e.error.fatal() {
                                let st3 = st2.root(var);
                                lemma_state_root(st2, var);
                                let st4 = st3.root(handlers);
                                lemma_state_root(st3, handlers);
                                lemma_handle(base, var, handlers, e, st4, depth);
                                lemma_state_unroot(
                                    semantics::handle(base, var, handlers, e, st4, depth).st,
                                    st.cx.roots.len(),
                                );
                            }
                        },
                    }
                },
            }
        },
    }
}

/// Whether each of the values is rooted by itself.
pub open spec fn all_held(cx: CxView, items: Seq<Value>) -> bool {
    forall|j: int| 0 <= j < items.len() ==> held(cx, #[trigger] items[j])
}

/// Evaluating argument forms leaves no reference dangling, and each value
/// is rooted.
pub proof fn lemma_eval_args(base: nat, forms: Value, done: Seq<Value>, st: State, depth: nat)
    requires
        sound(st),
        valid(st.cx, forms),
        all_held(st.cx, done),
    ensures
        sound(semantics::eval_args(base, forms, done, st, depth).st),
        semantics::eval_args(base, forms, done, st, depth).res matches Ok(items) ==> all_held(
            semantics::eval_args(base, forms, done, st, depth).st.cx,
            items,
        ),
    decreases depth, 2nat,
{
    lemma_split_valid(st.cx, forms);
    match semantics::split(st.cx, forms) {
        None => {},
        Some((form, rest)) => if depth > 0 {
            lemma_guarded1(base, form, rest, st, (depth - 1) as nat);
            let out = semantics::eval_form(base, form, st.root(rest), (depth - 1) as nat);
            let st2 = out.st.unroot(st.cx.roots.len());
            match out.res {
                Err(_) => {},
                Ok(v) => {
                    let st3 = st2.root(v);
                    lemma_state_root(st2, v);
                    let more = done.push(v);
                    assert forall|j: int| 0 <= j < more.len() implies held(st3.cx, #[trigger] more[j]) by {
                        if j < done.len() {
                            assert(more[j] == done[j]);
                            assert(held(st.cx, done[j]));
                            assert(st2.cx.roots == st.cx.roots);
                            lemma_held_extends(st2.cx, st3.cx, done[j]);
                        }
                    }
                    lemma_eval_args(base, rest, more, st3, (depth - 1) as nat);
                },
            }
        },
    }
}

/// Running the body of a closure leaves no reference dangling.
pub proof fn lemma_call_forms(forms: Value, args: Seq<Value>, name: Value, st: State, depth: nat)
    requires
        sound(st),
        valid(st.cx, forms),
        all_valid(st.cx, args),
    ensures
        fine(semantics::call_forms(forms, args, name, st, depth)),
    decreases depth, 3nat,
{
    lemma_bind_variables(st.cx, forms, args, name, depth);
    let (cx1, bound) = semantics::bind_variables(st.cx, forms, args, name, depth);
    lemma_step(st, cx1);
    match bound {
        Err(_) => {},
        Ok((vars, body)) => {
            lemma_with_bindings(cx1, st.env, vars);
            let st2 = State { env: semantics::with_bindings(st.env, vars), cx: cx1 };
            lemma_nil_valid(cx1);
            lemma_implicit_progn(st.env.lexical.len(), body, Value::nil_spec(), st2, depth);
            let out = semantics::implicit_progn(
                st.env.lexical.len(),
                body,
                Value::nil_spec(),
                st2,
                depth,
            );
            lemma_unbind(out.st.cx, out.st.env, st.env.lexical.len());
        },
    }
}

/// Calling a closure leaves no reference dangling, though the call begins
/// with a collection.
pub proof fn lemma_call_closure(
    closure: Value,
    c: Cons,
    args: Seq<Value>,
    name: Value,
    st: State,
    depth: nat,
)
    requires
        sound(st),
        st.cx.object(closure) == Object::Cons(c),
        all_valid(st.cx, args),
    ensures
        fine(semantics::call_closure(closure, c, args, name, st, depth)),
    decreases depth, 4nat,
{
    let n = st.cx.roots.len();
    let first = RootedView::Scalar(closure);
    let second = RootedView::Sequence(args);
    assert(valid(st.cx, closure));
    assert forall|x: Value| first.values().contains(x) implies valid(st.cx, x) by {}
    lemma_root(st.cx, first);
    let cx1 = CxView { roots: st.cx.roots.push(first), ..st.cx };
    assert forall|x: Value| second.values().contains(x) implies valid(cx1, x) by {
        let j = choose|j: int| 0 <= j < args.len() && args[j] == x;
        assert(valid(st.cx, args[j]));
    }
    lemma_root(cx1, second);
    let rooted = CxView { roots: st.cx.roots.push(first).push(second), ..st.cx };
    let before = State { cx: rooted, ..st };
    assert(sound(before));
    lemma_collect(before, false);
    let st1 = State { cx: rooted.collect(st.env, false), ..st };
    // the closure and the arguments are rooted, so they are still there
    assert(rooted.roots[n as int] == first);
    assert(rooted.roots[n as int + 1] == second);
    assert(first.values().contains(closure));
    lemma_root_values(rooted.roots, closure);
    lemma_kept_valid(rooted, st.env, false, closure);
    assert(st1.cx.object(closure) == Object::Cons(c));
    lemma_split_valid(st1.cx, closure);
    assert forall|j: int| 0 <= j < args.len() implies valid(st1.cx, #[trigger] args[j]) by {
        assert(second.values().contains(args[j]));
        assert(st1.cx.roots[n as int + 1].values().contains(args[j]));
    }
    if c.car == semantics::sym(crate::symbol::CLOSURE) {
        lemma_call_forms(c.cdr, args, name, st1, depth);
        lemma_state_unroot(semantics::call_forms(c.cdr, args, name, st1, depth).st, n);
    } else {
        lemma_state_unroot(st1, n);
    }
}

/// The arguments after the first lead somewhere if all do.
pub proof fn lemma_tail_valid(cx: CxView, args: Seq<Value>)
    requires
        all_valid(cx, args),
    ensures
        all_valid(cx, semantics::tail(args)),
        valid(cx, semantics::arg(args, 0)),
        valid(cx, semantics::arg(args, 1)),
{
    lemma_nil_valid(cx);
    let t = semantics::tail(args);
    assert forall|j: int| 0 <= j < t.len() implies valid(cx, #[trigger] t[j]) by {
        if args.len() > 0 {
            assert(t[j] == args[j + 1]);
        }
    }
    if args.len() > 0 {
        assert(valid(cx, args[0]));
    }
    if args.len() > 1 {
        assert(valid(cx, args[1]));
    }
}

/// Calling a built-in leaves no reference dangling.
pub proof fn lemma_call_subr(f: SubrFn, args: Seq<Value>, name: Value, st: State, depth: nat)
    requires
        sound(st),
        all_valid(st.cx, args),
    ensures
        fine(semantics::call_subr(f, args, name, st, depth)),
    decreases depth, 4nat,
{
    lemma_tail_valid(st.cx, args);
    if !semantics::arity_ok(f, args.len()) {
    } else if !semantics::calls_back(f) {
        lemma_simple_subr(f, args, st, depth);
    } else if depth == 0 {
    } else if f.code == crate::cell::SUBR_FUNCALL {
        lemma_call(
            semantics::arg(args, 0),
            semantics::tail(args),
            Value::nil_spec(),
            st,
            (depth - 1) as nat,
        );
    } else if f.code == crate::cell::SUBR_APPLY {
        lemma_apply(semantics::arg(args, 0), semantics::tail(args), st, (depth - 1) as nat);
    } else if f.code == crate::cell::SUBR_EVAL {
        lemma_eval(semantics::arg(args, 0), st, (depth - 1) as nat);
    } else {
        lemma_macroexpand(
            semantics::arg(args, 0),
            if semantics::arg(args, 1) != Value::nil_spec() {
                Some(semantics::arg(args, 1))
            } else {
                None
            },
            st,
            (depth - 1) as nat,
        );
    }
}

/// Calling a function leaves no reference dangling.
pub proof fn lemma_call(func: Value, args: Seq<Value>, name: Value, st: State, depth: nat)
    requires
        sound(st),
        valid(st.cx, func),
        all_valid(st.cx, args),
    ensures
        fine(semantics::call(func, args, name, st, depth)),
    decreases depth, 5nat,
{
    match st.cx.object(func) {
        Object::SubrFn(f) => {
            lemma_call_subr(f, args, name, st, depth);
        },
        Object::Cons(c) => {
            lemma_call_closure(func, c, args, name, st, depth);
        },
        Object::Symbol(s) => {
            lemma_follow(st.cx, s, s, crate::context::MAX_INDIRECTION as nat);
            match st.cx.follow_indirect(s) {
                Err(_) => {},
                Ok(f) => if depth > 0 {
                    lemma_call(f, args, name, st, (depth - 1) as nat);
                },
            }
        },
        _ => {},
    }
}

/// Calling the function of a macro leaves no reference dangling.
pub proof fn lemma_call_macro(m: Value, args: Seq<Value>, name: Value, st: State, depth: nat)
    requires
        sound(st),
        valid(st.cx, m),
        all_valid(st.cx, args),
    ensures
        fine(semantics::call_macro(m, args, name, st, depth)),
    decreases depth, 6nat,
{
    match st.cx.object(m) {
        Object::Cons(c) => {
            if c.car == semantics::sym(crate::symbol::CLOSURE) {
                lemma_call(m, args, name, st, depth);
            } else {
                lemma_call_forms(m, args, name, st, depth);
            }
        },
        _ => {
            lemma_call(m, args, name, st, depth);
        },
    }
}

/// Calling a function or a macro by name leaves no reference dangling.
pub proof fn lemma_eval_call(base: nat, name: Symbol, forms: Value, st: State, depth: nat)
    requires
        sound(st),
        valid(st.cx, forms),
    ensures
        fine(semantics::eval_call(base, name, forms, st, depth)),
    decreases depth, 7nat,
{
    lemma_follow(st.cx, name, name, crate::context::MAX_INDIRECTION as nat);
    match st.cx.follow_indirect(name) {
        Err(_) => {},
        Ok(func) => {
            lemma_split_valid(st.cx, func);
            match semantics::as_macro(st.cx, func) {
                Some(m) => {
                    lemma_list_items(st.cx, forms, Seq::empty(), depth);
                    match semantics::list_items(st.cx, forms, Seq::empty(), depth) {
                        Err(_) => {},
                        Ok(args) => {
                            lemma_call_macro(m, args, name.value, st, depth);
                            unwinding::lemma_call_macro(m, args, name.value, st, depth);
                            let expansion = semantics::call_macro(m, args, name.value, st, depth);
                            match expansion.res {
                                Err(_) => {},
                                Ok(form) => {
                                    lemma_guarded1(base, form, form, expansion.st, depth);
                                },
                            }
                        },
                    }
                },
                None => {
                    lemma_eval_args(base, forms, Seq::empty(), st, depth);
                    let values = semantics::eval_args(base, forms, Seq::empty(), st, depth);
                    match values.res {
                        Err(_) => {
                            lemma_state_unroot(values.st, st.cx.roots.len());
                        },
                        Ok(args) => {
                            assert forall|j: int| 0 <= j < args.len() implies valid(
                                values.st.cx,
                                #[trigger] args[j],
                            ) by {
                                lemma_held_valid(values.st.cx, args[j]);
                            }
                            lemma_call(func, args, name.value, values.st, depth);
                            lemma_state_unroot(
                                semantics::call(func, args, name.value, values.st, depth).st,
                                st.cx.roots.len(),
                            );
                        },
                    }
                },
            }
        },
    }
}

/// `apply` leaves no reference dangling.
pub proof fn lemma_apply(function: Value, arguments: Seq<Value>, st: State, depth: nat)
    requires
        sound(st),
        valid(st.cx, function),
        all_valid(st.cx, arguments),
    ensures
        fine(semantics::apply(function, arguments, st, depth)),
    decreases depth, 8nat,
{
    if arguments.len() == 0 {
        lemma_call(function, arguments, Value::nil_spec(), st, depth);
    } else {
        let first = arguments.drop_last();
        assert forall|j: int| 0 <= j < first.len() implies valid(st.cx, #[trigger] first[j]) by {
            assert(first[j] == arguments[j]);
        }
        assert(valid(st.cx, arguments[arguments.len() - 1]));
        lemma_list_items(st.cx, arguments.last(), first, depth);
        match semantics::list_items(st.cx, arguments.last(), first, depth) {
            Err(_) => {},
            Ok(args) => {
                lemma_call(function, args, Value::nil_spec(), st, depth);
            },
        }
    }
}

/// `macroexpand` leaves no reference dangling.
pub proof fn lemma_macroexpand(form: Value, environment: Option<Value>, st: State, depth: nat)
    requires
        sound(st),
        valid(st.cx, form),
    ensures
        fine(semantics::macroexpand(form, environment, st, depth)),
    decreases depth, 8nat,
{
    if environment.is_none() {
        match st.cx.object(form) {
            Object::Cons(c) => {
                lemma_split_valid(st.cx, form);
                match st.cx.object(c.car) {
                    Object::Symbol(name) => {
                        lemma_follow(st.cx, name, name, crate::context::MAX_INDIRECTION as nat);
                        match st.cx.follow_indirect(name) {
                            Err(_) => {},
                            Ok(f) => {
                                lemma_split_valid(st.cx, f);
                                match semantics::as_macro(st.cx, f) {
                                    None => {},
                                    Some(m) => {
                                        lemma_list_items(st.cx, c.cdr, Seq::empty(), depth);
                                        match semantics::list_items(st.cx, c.cdr, Seq::empty(), depth) {
                                            Err(_) => {},
                                            Ok(args) => {
                                                lemma_call_macro(m, args, c.car, st, depth);
                                            },
                                        }
                                    },
                                }
                            },
                        }
                    },
                    _ => {},
                }
            },
            _ => {},
        }
    }
}

/// No reference dangles: evaluating a form that leads somewhere in a sound
/// state gives a sound state and, if it gives a value, one that leads
/// somewhere, whatever is collected on the way.
pub proof fn lemma_eval(form: Value, st: State, depth: nat)
    requires
        sound(st),
        valid(st.cx, form),
    ensures
        fine(semantics::eval(form, st, depth)),
    decreases depth, 8nat,
{
    let st0 = st.root(form);
    lemma_state_root(st, form);
    lemma_collect(st0, false);
    let st1 = State { cx: st.cx.root(form).collect(st.env, false), ..st };
    assert(held(st1.cx, form));
    lemma_held_valid(st1.cx, form);
    lemma_eval_form(st.env.lexical.len(), form, st1, depth);
    lemma_state_unroot(semantics::eval_form(st.env.lexical.len(), form, st1, depth).st, st.cx.roots.len());
}

/// A new context with an empty environment is sound.
pub proof fn lemma_initial_sound(budget: usize)
    ensures
        sound(State { env: EnvView::empty(), cx: CxView::initial(budget) }),
{
    let cx = CxView::initial(budget);
    assert(cx.symbols.wf()) by {
        assert forall|i: int| 0 <= i < cx.symbols.map.len() implies ((#[trigger] cx.symbols.map[i]).func matches Some(
            f,
        ) ==> nonlocal(f)) by {
            if i >= crate::symbol::FIRST_SUBR {
                lemma_pack(crate::value::Tag::SubrFn, true, (i - crate::symbol::FIRST_SUBR) as nat);
            }
        }
        assert forall|i: int| 0 <= i < cx.symbols.block.cells.len() implies sealed_cell(
            #[trigger] cx.symbols.block.cells[i],
        ) by {
            assert(cx.symbols.block.cells[i].children() =~= Seq::empty());
        }
    }
}

/// No reference dangles after `eval`, `funcall`, `apply` or `macroexpand`:
/// from a sound state, and from values that lead somewhere, each gives a
/// sound state and, if it gives a value, one that leads somewhere. This
/// holds for every budget of the block, so also where a collection runs at
/// every point at which one can.
pub proof fn law_no_reference_dangles(
    function: Value,
    arguments: Seq<Value>,
    environment: Option<Value>,
    st: State,
    depth: nat,
)
    requires
        sound(st),
        valid(st.cx, function),
        all_valid(st.cx, arguments),
    ensures
        fine(semantics::eval(function, st, depth)),
        fine(semantics::funcall(function, arguments, st, depth)),
        fine(semantics::apply(function, arguments, st, depth)),
        fine(semantics::macroexpand(function, environment, st, depth)),
{
    lemma_eval(function, st, depth);
    lemma_call(function, arguments, Value::nil_spec(), st, depth);
    lemma_apply(function, arguments, st, depth);
    lemma_macroexpand(function, environment, st, depth);
}

} // verus!
