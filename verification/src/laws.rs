//! What holds of the runtime as a whole, proved from the definitions.
use crate::cell::CellView;
use crate::context::CxView;
use crate::env::EnvView;
use crate::error::Error;
use crate::gc::edge;
use crate::gc::is_path;
use crate::gc::points_to;
use crate::gc::reachable;
use crate::semantics;
use crate::semantics::State;
use crate::symbol::Symbol;
use crate::symbol_map::find_from;
use crate::symbol_map::func_of;
use crate::symbol_map::intern_index;
use crate::symbol_map::intern_table;
use crate::symbol_map::lookup;
use crate::symbol_map::nonlocal;
use crate::symbol_map::sealed_cell;
use crate::symbol_map::SymbolView;
use crate::value::Value;
use vstd::prelude::*;

verus! {

/// A search of a table with one more symbol at its end finds what it found
/// before, or else the new symbol if that is the one looked for.
pub proof fn lemma_find_from_push(map: Seq<SymbolView>, name: Seq<char>, from: nat, extra: SymbolView)
    requires
        from <= map.len(),
    ensures
        find_from(map.push(extra), name, from) == match find_from(map, name, from) {
            Some(i) => Some(i),
            None => if extra.interned && extra.name == name {
                Some(map.len())
            } else {
                None
            },
        },
    decreases map.len() - from,
{
    let longer = map.push(extra);
    if from < map.len() {
        assert(longer[from as int] == map[from as int]);
        if !(map[from as int].interned && map[from as int].name == name) {
            lemma_find_from_push(map, name, from + 1, extra);
        }
    } else {
        assert(longer[from as int] == extra);
        assert(find_from(longer, name, from + 1) == None::<nat>);
    }
}

/// Symbol identity: interning a name twice gives the same symbol, and the
/// second time the table stays as it is.
pub proof fn law_symbol_identity(map: Seq<SymbolView>, name: Seq<char>)
    ensures
        intern_index(intern_table(map, name), name) == intern_index(map, name),
        intern_table(intern_table(map, name), name) == intern_table(map, name),
{
    lemma_find_from_push(map, name, 0, SymbolView { name, func: None, interned: true });
}

/// Interning persists: a name that has its symbol keeps it when any other
/// name is interned.
pub proof fn law_interning_persists(map: Seq<SymbolView>, other: Seq<char>, name: Seq<char>)
    requires
        lookup(map, name).is_some(),
    ensures
        lookup(intern_table(map, other), name) == lookup(map, name),
        intern_index(intern_table(map, other), name) == intern_index(map, name),
{
    lemma_find_from_push(map, name, 0, SymbolView { name: other, func: None, interned: true });
}

/// A search finds the same in two tables whose symbols have the same names
/// and are interned alike.
pub proof fn lemma_find_from_same_names(a: Seq<SymbolView>, b: Seq<SymbolView>, name: Seq<char>, from: nat)
    requires
        a.len() == b.len(),
        forall|i: int|
            0 <= i < a.len() ==> (#[trigger] a[i]).name == b[i].name && a[i].interned == b[i].interned,
    ensures
        find_from(a, name, from) == find_from(b, name, from),
    decreases a.len() - from,
{
    if from < a.len() {
        assert(a[from as int].name == b[from as int].name);
        lemma_find_from_same_names(a, b, name, from + 1);
    }
}

/// Interning persists across collections and installed functions: neither
/// a collection nor `set_func` changes which symbol a name has.
pub proof fn law_interning_survives(cx: CxView, env: EnvView, force: bool, symbol: Symbol, func: Value, depth: nat, name: Seq<char>)
    ensures
        intern_index(cx.collect(env, force).symbols.map, name) == intern_index(cx.symbols.map, name),
        intern_index(cx.set_func(symbol, func, depth).0.symbols.map, name) == intern_index(
            cx.symbols.map,
            name,
        ),
{
    let after = cx.set_func(symbol, func, depth).0.symbols.map;
    assert(after.len() == cx.symbols.map.len());
    assert forall|i: int| 0 <= i < after.len() implies (#[trigger] after[i]).name
        == cx.symbols.map[i].name && after[i].interned == cx.symbols.map[i].interned by {}
    lemma_find_from_same_names(after, cx.symbols.map, name, 0);
}

/// Whether each value of `path` after the first is a child of the cell that
/// the value before it refers to.
pub open spec fn chain(cx: CxView, path: Seq<Value>) -> bool {
    forall|i: int|
        0 <= i < path.len() - 1 ==> match cx.cell_of(#[trigger] path[i]) {
            Some(cell) => cell.children().contains(path[i + 1]),
            None => false,
        }
}

/// Whatever a value that is no local reference leads to is no local
/// reference either.
pub proof fn lemma_chain_nonlocal(cx: CxView, path: Seq<Value>, k: int)
    requires
        cx.wf(),
        path.len() > 0,
        nonlocal(path[0]),
        chain(cx, path),
        0 <= k < path.len(),
    ensures
        nonlocal(path[k]),
    decreases k,
{
    if k > 0 {
        lemma_chain_nonlocal(cx, path, k - 1);
        let v = path[k - 1];
        let cell = cx.cell_of(v).unwrap();
        assert(v.tag_spec().is_heap());
        assert(v.global_spec());
        assert(sealed_cell(cx.symbols.block.cells[v.index_spec() as int]));
        let j = choose|j: int| 0 <= j < cell.children().len() && cell.children()[j] == path[k];
        assert(nonlocal(cell.children()[j]));
    }
}

/// Published functions cannot be changed: whatever cons cell the function
/// of a symbol leads to, `set-car` and `set-cdr` on it are refused with
/// `immutable-cons`, and nothing changes.
pub proof fn law_published_immutable(cx: CxView, symbol: Symbol, path: Seq<Value>, x: Value)
    requires
        cx.wf(),
        path.len() > 0,
        func_of(cx.symbols.map, symbol) == Some(path[0]),
        chain(cx, path),
        cx.object(path.last()) is Cons,
    ensures
        cx.set_car(path.last(), x) == (cx, Err::<(), Error>(Error::ImmutableCons)),
        cx.set_cdr(path.last(), x) == (cx, Err::<(), Error>(Error::ImmutableCons)),
{
    assert(cx.symbols.map[symbol.id_spec() as int].func == Some(path[0]));
    lemma_chain_nonlocal(cx, path, path.len() - 1);
}

/// What `set_func` installs is in the global block: the function cell of
/// the symbol holds no local reference afterwards, whatever was installed.
pub proof fn law_installed_is_global(cx: CxView, symbol: Symbol, func: Value, depth: nat)
    requires
        cx.wf(),
        cx.set_func(symbol, func, depth).0.wf(),
    ensures
        func_of(cx.set_func(symbol, func, depth).0.symbols.map, symbol) matches Some(f) ==> nonlocal(f),
{
    let after = cx.set_func(symbol, func, depth).0;
    if symbol.id_spec() < after.symbols.map.len() {
        assert(after.symbols.map[symbol.id_spec() as int].func matches Some(f) ==> nonlocal(f));
    }
}

/// Evaluation is determined by the state and the form: from equal states
/// the same form gives the same state and the same result.
pub proof fn law_evaluation_deterministic(form: Value, a: State, b: State, depth: nat)
    requires
        a == b,
    ensures
        semantics::eval(form, a, depth) == semantics::eval(form, b, depth),
{
}

/// Arguments are evaluated from left to right: the values of the argument
/// forms are the value of the first form, and then the values of the other
/// forms in the state that the first form left, with its value rooted.
pub proof fn law_left_to_right(base: nat, form: Value, rest: Value, done: Seq<Value>, st: State, depth: nat, forms: Value)
    requires
        depth > 0,
        semantics::split(st.cx, forms) == Some((form, rest)),
    ensures
        ({
            let first = semantics::eval_form(base, form, st.root(rest), (depth - 1) as nat);
            let after = first.st.unroot(st.cx.roots.len());
            semantics::eval_args(base, forms, done, st, depth) == match first.res {
                Err(e) => semantics::Outcome { st: after, res: Err(e) },
                Ok(v) => semantics::eval_args(
                    base,
                    rest,
                    done.push(v),
                    after.root(v),
                    (depth - 1) as nat,
                ),
            }
        }),
{
}

/// A cell that a reachable cell refers to is reachable.
pub proof fn lemma_child_reachable(cells: Seq<CellView>, roots: Set<Value>, i: int, j: int)
    requires
        reachable(cells, roots, i),
        edge(cells, i, j),
        0 <= j < cells.len(),
    ensures
        reachable(cells, roots, j),
{
    let path = choose|path: Seq<int>| #[trigger] is_path(cells, roots, path) && path.last() == i;
    let longer = path.push(j);
    assert(longer[0] == path[0]);
    assert forall|k: int| 0 <= k < longer.len() implies 0 <= #[trigger] longer[k] < cells.len() by {
        if k < path.len() {
            assert(longer[k] == path[k]);
        }
    }
    assert forall|k: int| 0 <= k < longer.len() - 1 implies edge(
        cells,
        #[trigger] longer[k],
        longer[k + 1],
    ) by {
        if k < path.len() - 1 {
            assert(longer[k] == path[k]);
            assert(longer[k + 1] == path[k + 1]);
        } else {
            assert(longer[k] == i);
        }
    }
    assert(is_path(cells, roots, longer));
    assert(longer.last() == j);
}

/// A cell that a root refers to is reachable.
pub proof fn lemma_root_reachable(cells: Seq<CellView>, roots: Set<Value>, v: Value)
    requires
        roots.contains(v),
        v.tag_spec().is_heap(),
        !v.global_spec(),
        v.index_spec() < cells.len(),
    ensures
        reachable(cells, roots, v.index_spec() as int),
{
    let i = v.index_spec() as int;
    let path = seq![i];
    assert(points_to(v, i));
    assert(is_path(cells, roots, path));
    assert(path.last() == i);
}

/// A collection changes nothing that can be seen from the roots: a value
/// that the registry or the environment keeps reachable denotes after the
/// collection what it denoted before, and so does every value in a cell it
/// leads to. The symbol table, the global block and the registry stay as
/// they are.
pub proof fn law_collection_keeps_reachable(cx: CxView, env: EnvView, force: bool, v: Value)
    requires
        cx.root_set(env).contains(v) || (exists|i: int|
            reachable(cx.block.cells, cx.root_set(env), i) && 0 <= i < cx.block.cells.len()
                && cx.block.cells[i].children().contains(v)),
    ensures
        cx.collect(env, force).cell_of(v) == cx.cell_of(v),
        cx.collect(env, force).object(v) == cx.object(v),
        cx.collect(env, force).symbols == cx.symbols,
        cx.collect(env, force).roots == cx.roots,
{
    let roots = cx.root_set(env);
    let cells = cx.block.cells;
    if v.tag_spec().is_heap() && !v.global_spec() && v.index_spec() < cells.len() {
        let j = v.index_spec() as int;
        if roots.contains(v) {
            lemma_root_reachable(cells, roots, v);
        } else {
            let i = choose|i: int|
                reachable(cells, roots, i) && 0 <= i < cells.len() && cells[i].children().contains(v);
            let k = choose|k: int| 0 <= k < cells[i].children().len() && cells[i].children()[k] == v;
            assert(points_to(cells[i].children()[k], j));
            lemma_child_reachable(cells, roots, i, j);
        }
        assert(reachable(cells, roots, j));
    }
}

/// A collection frees exactly what cannot be reached: a cell of the local
/// block is the same afterwards if it can be reached from the roots, and
/// free if it cannot.
pub proof fn law_collection_exact(cx: CxView, env: EnvView, i: int)
    requires
        0 <= i < cx.block.cells.len(),
    ensures
        cx.collect(env, true).block.cells[i] == if reachable(
            cx.block.cells,
            cx.root_set(env),
            i,
        ) {
            cx.block.cells[i]
        } else {
            CellView::Free
        },
{
}

/// Every dynamic variable has a number that the machine can index.
pub open spec fn indexable(env: EnvView) -> bool {
    env.indexable()
}

/// The value saved first, from place `from` on, for the variable numbered
/// `id`.
pub open spec fn first_saved(shadow: Seq<(Symbol, Value)>, from: nat, id: nat) -> Option<Value>
    decreases shadow.len() - from,
{
    if from >= shadow.len() {
        None
    } else if shadow[from as int].0.id_spec() == id {
        Some(shadow[from as int].1)
    } else {
        first_saved(shadow, from + 1, id)
    }
}

/// Whether one of `pairs[k..]` binds the variable numbered `id`.
pub open spec fn binds(pairs: Seq<(Symbol, Value)>, k: nat, id: nat) -> bool {
    exists|j: int| k <= j < pairs.len() && (#[trigger] pairs[j]).0.id_spec() == id
}

proof fn lemma_first_saved_drop_last(shadow: Seq<(Symbol, Value)>, from: nat, id: nat)
    requires
        from < shadow.len(),
    ensures
        first_saved(shadow, from, id) == match first_saved(shadow.drop_last(), from, id) {
            Some(v) => Some(v),
            None => if shadow.last().0.id_spec() == id {
                Some(shadow.last().1)
            } else {
                None
            },
        },
    decreases shadow.len() - from,
{
    let shorter = shadow.drop_last();
    if from < shorter.len() {
        assert(shorter[from as int] == shadow[from as int]);
        if shadow[from as int].0.id_spec() != id {
            lemma_first_saved_drop_last(shadow, from + 1, id);
        }
    } else {
        assert(first_saved(shadow, from + 1, id) == None::<Value>);
    }
}

/// Giving the saved values back leaves each variable with the value that
/// was saved for it first, and any other variable as it is.
pub proof fn lemma_restore(env: EnvView, len: nat, id: nat)
    requires
        forall|j: int| len <= j < env.shadow.len() ==> (#[trigger] env.shadow[j]).0.id_spec() < usize::MAX,
    ensures
        env.restore(len).shadow == if len <= env.shadow.len() {
            env.shadow.take(len as int)
        } else {
            env.shadow
        },
        env.restore(len).lexical == env.lexical,
        env.restore(len).vars.contains_key(id) == (env.vars.contains_key(id) || first_saved(
            env.shadow,
            len,
            id,
        ).is_some()),
        env.restore(len).vars.contains_key(id) ==> env.restore(len).vars[id] == match first_saved(
            env.shadow,
            len,
            id,
        ) {
            Some(v) => v,
            None => env.vars[id],
        },
    decreases env.shadow.len(),
{
    if env.shadow.len() <= len {
        assert(env.shadow.take(env.shadow.len() as int) =~= env.shadow);
    } else {
        let (symbol, value) = env.shadow.last();
        let next = EnvView { shadow: env.shadow.drop_last(), ..env.set_var(symbol, value) };
        assert(env.shadow[env.shadow.len() - 1].0.id_spec() < usize::MAX);
        assert forall|j: int| len <= j < next.shadow.len() implies (#[trigger] next.shadow[j]).0.id_spec()
            < usize::MAX by {
            assert(next.shadow[j] == env.shadow[j]);
        }
        lemma_restore(next, len, id);
        lemma_first_saved_drop_last(env.shadow, len, id);
        assert(next.shadow.take(len as int) =~= env.shadow.take(len as int));
    }
}

/// Binding `pairs[k..]` saves, for each dynamic variable among them, the
/// value it has now, and first of all; it saves nothing else, and makes no
/// variable dynamic that was not.
pub proof fn lemma_install_all(pairs: Seq<(Symbol, Value)>, k: nat, st: State, id: nat)
    requires
        indexable(st.env),
    ensures
        ({
            let after = semantics::install_all(pairs, k, st).st.env;
            &&& indexable(after)
            &&& after.shadow.len() >= st.env.shadow.len()
            &&& after.shadow.take(st.env.shadow.len() as int) == st.env.shadow
            &&& forall|j: int|
                st.env.shadow.len() <= j < after.shadow.len() ==> (#[trigger] after.shadow[j]).0.id_spec()
                    < usize::MAX
            &&& after.vars.contains_key(id) == st.env.vars.contains_key(id)
            &&& semantics::install_all(pairs, k, st).res is Ok ==> first_saved(
                after.shadow,
                st.env.shadow.len(),
                id,
            ) == if binds(pairs, k, id) && st.env.vars.contains_key(id) {
                Some(st.env.vars[id])
            } else {
                None
            }
        }),
    decreases pairs.len() - k,
{
    let n = st.env.shadow.len();
    if k >= pairs.len() {
        assert(st.env.shadow.take(n as int) =~= st.env.shadow);
    } else {
        let (symbol, value) = pairs[k as int];
        let one = semantics::install(symbol, value, st);
        let after = semantics::install_all(pairs, k, st).st.env;
        match one.res {
            Err(_) => {
                assert(after.shadow.take(n as int) =~= st.env.shadow);
            },
            Ok(_) => {
                assert(indexable(one.st.env)) by {
                    assert forall|i: nat| #[trigger] one.st.env.vars.contains_key(i) implies i
                        < usize::MAX by {
                        assert(st.env.vars.contains_key(i));
                    }
                }
                lemma_install_all(pairs, k + 1, one.st, id);
                let m = one.st.env.shadow.len();
                assert(after.shadow.take(n as int) =~= after.shadow.take(m as int).take(n as int));
                assert(after.shadow.take(n as int) =~= st.env.shadow);
                assert forall|j: int| n <= j < after.shadow.len() implies (#[trigger] after.shadow[j]).0.id_spec()
                    < usize::MAX by {
                    if j < m {
                        assert(after.shadow[j] == after.shadow.take(m as int)[j]);
                        assert(st.env.vars.contains_key(symbol.id_spec()));
                    }
                }
                if semantics::install_all(pairs, k, st).res is Ok {
                    if binds(pairs, k, id) && !(symbol.id_spec() == id) {
                        let j = choose|j: int| k <= j < pairs.len() && (#[trigger] pairs[j]).0.id_spec() == id;
                        assert(pairs[j].0.id_spec() == id);
                        assert(binds(pairs, k + 1, id));
                    }
                    if binds(pairs, k + 1, id) {
                        let j = choose|j: int|
                            k + 1 <= j < pairs.len() && (#[trigger] pairs[j]).0.id_spec() == id;
                        assert(pairs[j].0.id_spec() == id);
                        assert(binds(pairs, k, id));
                    }
                    if symbol.id_spec() == id {
                        assert(pairs[k as int].0.id_spec() == id);
                        assert(binds(pairs, k, id));
                    }
                    if m > n {
                        assert(after.shadow[n as int] == after.shadow.take(m as int)[n as int]);
                    }
                }
            },
        }
    }
}

/// Let restoration: when the bindings of a `let` have been installed and,
/// later, the saved values are given back, every dynamic variable that the
/// `let` rebound has exactly the value it had before the `let`, whatever was
/// assigned to it meanwhile; every other variable keeps the value it has
/// then. `later` is the environment at the end of the body, which has left
/// the saved values as the bindings put them.
pub proof fn law_let_restores(pairs: Seq<(Symbol, Value)>, st: State, later: EnvView, symbol: Symbol)
    requires
        indexable(st.env),
        semantics::install_all(pairs, 0, st).res is Ok,
        later.shadow == semantics::install_all(pairs, 0, st).st.env.shadow,
    ensures
        ({
            let after = later.restore(st.env.shadow.len());
            &&& after.shadow == st.env.shadow
            &&& binds(pairs, 0, symbol.id_spec()) && st.env.get_var(symbol).is_some()
                ==> after.get_var(symbol) == st.env.get_var(symbol)
            &&& !(binds(pairs, 0, symbol.id_spec()) && st.env.get_var(symbol).is_some())
                && later.get_var(symbol).is_some() ==> after.get_var(symbol) == later.get_var(
                symbol,
            )
        }),
{
    let id = symbol.id_spec();
    lemma_install_all(pairs, 0, st, id);
    lemma_restore(later, st.env.shadow.len(), id);
}

/// Whether a collection leaves `v` alone: it is no local reference, or the
/// registry or the environment keeps it reachable, or it stands in a cell
/// that can be reached.
pub open spec fn kept(cx: CxView, env: EnvView, v: Value) -> bool {
    nonlocal(v) || cx.root_set(env).contains(v) || (exists|i: int|
        reachable(cx.block.cells, cx.root_set(env), i) && 0 <= i < cx.block.cells.len()
            && cx.block.cells[i].children().contains(v))
}

/// What a kept value refers to is kept, and the value denotes the same
/// after a collection.
pub proof fn lemma_kept(cx: CxView, env: EnvView, force: bool, v: Value)
    requires
        cx.wf(),
        kept(cx, env, v),
    ensures
        cx.collect(env, force).cell_of(v) == cx.cell_of(v),
        cx.cell_of(v) matches Some(cell) ==> forall|k: int|
            0 <= k < cell.children().len() ==> kept(cx, env, #[trigger] cell.children()[k]),
{
    let roots = cx.root_set(env);
    let cells = cx.block.cells;
    if nonlocal(v) {
        match cx.cell_of(v) {
            Some(cell) => {
                assert(sealed_cell(cx.symbols.block.cells[v.index_spec() as int]));
            },
            None => {},
        }
    } else {
        law_collection_keeps_reachable(cx, env, force, v);
        match cx.cell_of(v) {
            Some(cell) => {
                let j = v.index_spec() as int;
                if roots.contains(v) {
                    lemma_root_reachable(cells, roots, v);
                } else {
                    let i = choose|i: int|
                        reachable(cells, roots, i) && 0 <= i < cells.len() && cells[i].children().contains(
                            v,
                        );
                    let k = choose|k: int|
                        0 <= k < cells[i].children().len() && cells[i].children()[k] == v;
                    assert(points_to(cells[i].children()[k], j));
                    lemma_child_reachable(cells, roots, i, j);
                }
                assert forall|k: int| 0 <= k < cell.children().len() implies kept(
                    cx,
                    env,
                    #[trigger] cell.children()[k],
                ) by {
                    assert(cells[j].children().contains(cell.children()[k]));
                }
            },
            None => {},
        }
    }
}

/// A collection cannot be seen through the roots: two values that the
/// roots keep are equal after a collection exactly where they were equal
/// before, however deep the comparison looks.
pub proof fn law_collection_keeps_equal(cx: CxView, env: EnvView, force: bool, a: Value, b: Value, depth: nat)
    requires
        cx.wf(),
        kept(cx, env, a),
        kept(cx, env, b),
    ensures
        crate::equality::equal_spec(cx.collect(env, force), a, b, depth)
            == crate::equality::equal_spec(cx, a, b, depth),
    decreases depth, 0nat, 0nat,
{
    lemma_kept(cx, env, force, a);
    lemma_kept(cx, env, force, b);
    if a != b && depth > 0 {
        match (cx.cell_of(a), cx.cell_of(b)) {
            (
                Some(CellView::Cons { car: a1, cdr: a2, mutable: m1 }),
                Some(CellView::Cons { car: b1, cdr: b2, mutable: m2 }),
            ) => {
                let ca = cx.cell_of(a).unwrap();
                let cb = cx.cell_of(b).unwrap();
                assert(ca.children()[0] == a1 && ca.children()[1] == a2);
                assert(cb.children()[0] == b1 && cb.children()[1] == b2);
                law_collection_keeps_equal(cx, env, force, a1, b1, (depth - 1) as nat);
                law_collection_keeps_equal(cx, env, force, a2, b2, (depth - 1) as nat);
            },
            (Some(CellView::Vector(xs)), Some(CellView::Vector(ys))) => {
                if xs.len() == ys.len() {
                    lemma_items_keep_equal(cx, env, force, xs, ys, 0, (depth - 1) as nat);
                }
            },
            _ => {},
        }
    }
}

proof fn lemma_items_keep_equal(
    cx: CxView,
    env: EnvView,
    force: bool,
    xs: Seq<Value>,
    ys: Seq<Value>,
    k: nat,
    depth: nat,
)
    requires
        cx.wf(),
        xs.len() == ys.len(),
        forall|j: int| 0 <= j < xs.len() ==> kept(cx, env, #[trigger] xs[j]),
        forall|j: int| 0 <= j < ys.len() ==> kept(cx, env, #[trigger] ys[j]),
    ensures
        crate::equality::equal_items(cx.collect(env, force), xs, ys, k, depth)
            == crate::equality::equal_items(cx, xs, ys, k, depth),
    decreases depth, 1nat, xs.len() - k,
{
    if k < xs.len() {
        law_collection_keeps_equal(cx, env, force, xs[k as int], ys[k as int], depth);
        lemma_items_keep_equal(cx, env, force, xs, ys, k + 1, depth);
    }
}

/// Whatever becomes of binding `pairs[k..]`, a value that was saved first
/// for a variable is the value the variable had, and a variable for which
/// nothing was saved has its value still.
pub proof fn lemma_install_all_saved(pairs: Seq<(Symbol, Value)>, k: nat, st: State, id: nat)
    requires
        indexable(st.env),
    ensures
        ({
            let after = semantics::install_all(pairs, k, st).st.env;
            match first_saved(after.shadow, st.env.shadow.len(), id) {
                Some(v) => st.env.vars.contains_key(id) && v == st.env.vars[id],
                None => after.vars.contains_key(id) ==> st.env.vars.contains_key(id)
                    && after.vars[id] == st.env.vars[id],
            }
        }),
    decreases pairs.len() - k,
{
    let n = st.env.shadow.len();
    if k < pairs.len() {
        let (symbol, value) = pairs[k as int];
        let one = semantics::install(symbol, value, st);
        let after = semantics::install_all(pairs, k, st).st.env;
        match one.res {
            Err(_) => {},
            Ok(_) => {
                assert(indexable(one.st.env)) by {
                    assert forall|i: nat| #[trigger] one.st.env.vars.contains_key(i) implies i
                        < usize::MAX by {
                        assert(st.env.vars.contains_key(i));
                    }
                }
                lemma_install_all_saved(pairs, k + 1, one.st, id);
                lemma_install_all(pairs, k + 1, one.st, id);
                let m = one.st.env.shadow.len();
                if m > n {
                    assert(after.shadow[n as int] == after.shadow.take(m as int)[n as int]);
                }
            },
        }
    }
}

/// Let restoration: after `(let ((x NEW) ...) body...)`, whether it gave a
/// value or an error, a dynamic variable that the `let` bound has exactly
/// the value it had when the bindings were made, that is, once all the
/// value forms had been evaluated; what the body assigned to it is gone.
pub proof fn law_let_restoration(base: nat, forms: Value, st: State, depth: nat, symbol: Symbol)
    requires
        semantics::split(st.cx, forms).is_some(),
        ({
            let (bindings, body) = semantics::split(st.cx, forms).unwrap();
            let values = semantics::let_values(base, bindings, Seq::empty(), st.root(body), depth);
            &&& values.res is Ok
            &&& indexable(values.st.env)
            &&& binds(values.res->Ok_0, 0, symbol.id_spec())
            &&& values.st.env.get_var(symbol).is_some()
        }),
    ensures
        ({
            let (bindings, body) = semantics::split(st.cx, forms).unwrap();
            let values = semantics::let_values(base, bindings, Seq::empty(), st.root(body), depth);
            semantics::eval_let(base, forms, true, st, depth).st.env.get_var(symbol)
                == values.st.env.get_var(symbol)
        }),
{
    let id = symbol.id_spec();
    let (bindings, body) = semantics::split(st.cx, forms).unwrap();
    let st1 = st.root(body);
    let values = semantics::let_values(base, bindings, Seq::empty(), st1, depth);
    let pairs = values.res->Ok_0;
    crate::unwinding::lemma_let_values(base, bindings, Seq::empty(), st1, depth);
    let installed = semantics::install_all(pairs, 0, values.st);
    lemma_install_all(pairs, 0, values.st, id);
    lemma_install_all_saved(pairs, 0, values.st, id);
    let bound = semantics::let_bind_parallel(base, bindings, st1, depth);
    assert(bound.st.env == installed.st.env);
    let n = st.env.shadow.len();
    match bound.res {
        Err(_) => {
            let later = bound.st.env.unbind(st.env.lexical.len());
            lemma_restore(later, n, id);
        },
        Ok(_) => {
            crate::unwinding::lemma_implicit_progn(base, body, Value::nil_spec(), bound.st, depth);
            let out = semantics::implicit_progn(base, body, Value::nil_spec(), bound.st, depth);
            let later = out.st.env.unbind(st.env.lexical.len());
            lemma_restore(later, n, id);
        },
    }
}

} // verus!
