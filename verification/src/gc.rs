//! Mark and sweep over one block: what is reachable from the roots stays as
//! it is, every other cell becomes free. Cells never move.
use crate::block::Block;
use crate::block::BlockView;
use crate::cell::Cell;
use crate::cell::CellView;
use crate::value::Value;
use vstd::prelude::*;

verus! {

/// Whether `v` is a reference to cell `i` of the local block.
pub open spec fn points_to(v: Value, i: int) -> bool {
    v.tag_spec().is_heap() && !v.global_spec() && v.index_spec() == i
}

/// Whether some root refers to cell `i`.
pub open spec fn is_root(roots: Set<Value>, i: int) -> bool {
    exists|v: Value| #[trigger] roots.contains(v) && points_to(v, i)
}

/// Whether cell `i` refers to cell `j`.
pub open spec fn edge(cells: Seq<CellView>, i: int, j: int) -> bool {
    0 <= i < cells.len() && exists|k: int|
        0 <= k < cells[i].children().len() && points_to(#[trigger] cells[i].children()[k], j)
}

/// Whether `path` leads from a root through cells of the block, each
/// referring to the next.
pub open spec fn is_path(cells: Seq<CellView>, roots: Set<Value>, path: Seq<int>) -> bool {
    &&& path.len() > 0
    &&& is_root(roots, path[0])
    &&& forall|k: int| 0 <= k < path.len() ==> 0 <= #[trigger] path[k] < cells.len()
    &&& forall|k: int| 0 <= k < path.len() - 1 ==> edge(cells, #[trigger] path[k], path[k + 1])
}

/// Whether cell `i` can be reached from the roots.
pub open spec fn reachable(cells: Seq<CellView>, roots: Set<Value>, i: int) -> bool {
    exists|path: Seq<int>| #[trigger] is_path(cells, roots, path) && path.last() == i
}

/// The indices below `n` of the free cells, in rising order.
pub open spec fn free_indices(cells: Seq<CellView>, n: nat) -> Seq<usize>
    decreases n,
{
    if n == 0 {
        Seq::empty()
    } else if cells[n - 1] is Free {
        free_indices(cells, (n - 1) as nat).push((n - 1) as usize)
    } else {
        free_indices(cells, (n - 1) as nat)
    }
}

/// The cells after a collection: a reachable cell as it was, any other free.
pub open spec fn swept(cells: Seq<CellView>, roots: Set<Value>) -> Seq<CellView> {
    Seq::new(
        cells.len(),
        |i: int|
            if reachable(cells, roots, i) {
                cells[i]
            } else {
                CellView::Free
            },
    )
}

/// The block after a collection from `roots`.
pub open spec fn collected(b: BlockView, roots: Set<Value>) -> BlockView {
    BlockView {
        cells: swept(b.cells, roots),
        free: free_indices(swept(b.cells, roots), b.cells.len()),
        ..b
    }
}

/// The number of unmarked entries.
pub open spec fn unmarked(marks: Seq<bool>) -> nat
    decreases marks.len(),
{
    if marks.len() == 0 {
        0
    } else {
        unmarked(marks.drop_last()) + if marks.last() {
            0nat
        } else {
            1nat
        }
    }
}

proof fn lemma_unmarked_update(marks: Seq<bool>, i: int)
    requires
        0 <= i < marks.len(),
        !marks[i],
    ensures
        unmarked(marks.update(i, true)) + 1 == unmarked(marks),
    decreases marks.len(),
{
    let after = marks.update(i, true);
    if i == marks.len() - 1 {
        assert(after.drop_last() =~= marks.drop_last());
    } else {
        lemma_unmarked_update(marks.drop_last(), i);
        assert(after.drop_last() =~= marks.drop_last().update(i, true));
    }
}

/// Whether every cell that cell `i` refers to is marked.
pub open spec fn children_marked(cells: Seq<CellView>, marks: Seq<bool>, i: int, upto: int) -> bool {
    forall|k: int, j: int|
        0 <= k < upto && 0 <= j < cells.len() && points_to(#[trigger] cells[i].children()[k], j)
            ==> #[trigger] marks[j]
}

/// What holds of the marks while the graph is walked: only reachable cells are
/// marked, the cells waiting on the stack are marked, and a marked cell that
/// is not waiting has all its children marked.
pub open spec fn walking(
    cells: Seq<CellView>,
    roots: Set<Value>,
    marks: Seq<bool>,
    stack: Seq<usize>,
    current: int,
) -> bool {
    &&& marks.len() == cells.len()
    &&& cells.len() <= usize::MAX
    &&& forall|s: int| 0 <= s < stack.len() ==> (#[trigger] stack[s]) < cells.len() && marks[stack[s] as int]
    &&& forall|i: int| 0 <= i < cells.len() && #[trigger] marks[i] ==> reachable(cells, roots, i)
    &&& forall|i: int|
        0 <= i < cells.len() && #[trigger] marks[i] && i != current && !stack.contains(i as usize)
            ==> children_marked(cells, marks, i, cells[i].children().len() as int)
}

/// Marks the cell that `v` refers to, if it is an unmarked cell of the block,
/// and puts it on the stack.
fn visit(v: Value, marks: &mut Vec<bool>, stack: &mut Vec<usize>) -> (hit: bool)
    ensures
        hit == (exists|j: int| 0 <= j < old(marks)@.len() && points_to(v, j) && !old(marks)@[j]),
        hit ==> final(marks)@ == old(marks)@.update(v.index_spec() as int, true) && final(stack)@
            == old(stack)@.push(v.index_spec() as usize) && v.index_spec() < old(marks)@.len(),
        !hit ==> final(marks)@ == old(marks)@ && final(stack)@ == old(stack)@,
{
    if v.tag().heap_kind() && !v.is_global() {
        let index = v.index();
        if index < marks.len() as u64 {
            let i = index as usize;
            if !marks[i] {
                marks[i] = true;
                stack.push(i);
                assert(points_to(v, i as int));
                return true;
            }
        }
    }
    false
}

proof fn lemma_mark_root(
    cells: Seq<CellView>,
    roots: Set<Value>,
    marks: Seq<bool>,
    stack: Seq<usize>,
    root: Value,
)
    requires
        walking(cells, roots, marks, stack, -1),
        roots.contains(root),
        0 <= root.index_spec() < cells.len(),
        points_to(root, root.index_spec() as int),
        !marks[root.index_spec() as int],
    ensures
        walking(
            cells,
            roots,
            marks.update(root.index_spec() as int, true),
            stack.push(root.index_spec() as usize),
            -1,
        ),
{
    let j = root.index_spec() as int;
    let marks2 = marks.update(j, true);
    let stack2 = stack.push(j as usize);
    let path = seq![j];
    assert(is_path(cells, roots, path));
    assert(path.last() == j);
    assert forall|s: int| 0 <= s < stack2.len() implies (#[trigger] stack2[s]) < cells.len()
        && marks2[stack2[s] as int] by {
        if s < stack.len() {
            assert(stack2[s] == stack[s]);
        }
    }
    assert forall|i: int|
        0 <= i < cells.len() && #[trigger] marks2[i] && i != -1 && !stack2.contains(
            i as usize,
        ) implies children_marked(cells, marks2, i, cells[i].children().len() as int) by {
        assert(stack2[stack.len() as int] == j as usize);
        assert(i != j);
        assert(marks[i]);
        if stack.contains(i as usize) {
            let s = choose|s: int| 0 <= s < stack.len() && stack[s] == i as usize;
            assert(stack2[s] == i as usize);
        }
        assert(children_marked(cells, marks, i, cells[i].children().len() as int));
    }
}

proof fn lemma_mark_child(
    cells: Seq<CellView>,
    roots: Set<Value>,
    marks: Seq<bool>,
    stack: Seq<usize>,
    current: int,
    k: int,
)
    requires
        walking(cells, roots, marks, stack, current),
        0 <= current < cells.len(),
        marks[current],
        0 <= k < cells[current].children().len(),
        0 <= cells[current].children()[k].index_spec() < cells.len(),
        points_to(cells[current].children()[k], cells[current].children()[k].index_spec() as int),
        !marks[cells[current].children()[k].index_spec() as int],
    ensures
        walking(
            cells,
            roots,
            marks.update(cells[current].children()[k].index_spec() as int, true),
            stack.push(cells[current].children()[k].index_spec() as usize),
            current,
        ),
{
    let j = cells[current].children()[k].index_spec() as int;
    let marks2 = marks.update(j, true);
    let stack2 = stack.push(j as usize);
    let path = choose|path: Seq<int>| #[trigger] is_path(cells, roots, path) && path.last() == current;
    let longer = path.push(j);
    assert(is_path(cells, roots, longer)) by {
        assert(longer[0] == path[0]);
        assert forall|m: int| 0 <= m < longer.len() - 1 implies edge(
            cells,
            #[trigger] longer[m],
            longer[m + 1],
        ) by {
            if m < path.len() - 1 {
                assert(longer[m] == path[m]);
                assert(longer[m + 1] == path[m + 1]);
            } else {
                assert(longer[m] == current);
                assert(longer[m + 1] == j);
            }
        }
        assert forall|m: int| 0 <= m < longer.len() implies 0 <= #[trigger] longer[m]
            < cells.len() by {
            if m < path.len() {
                assert(longer[m] == path[m]);
            }
        }
    }
    assert(longer.last() == j);
    assert forall|s: int| 0 <= s < stack2.len() implies (#[trigger] stack2[s]) < cells.len()
        && marks2[stack2[s] as int] by {
        if s < stack.len() {
            assert(stack2[s] == stack[s]);
        }
    }
    assert forall|i: int|
        0 <= i < cells.len() && #[trigger] marks2[i] && i != current && !stack2.contains(
            i as usize,
        ) implies children_marked(cells, marks2, i, cells[i].children().len() as int) by {
        assert(stack2[stack.len() as int] == j as usize);
        assert(i != j);
        assert(marks[i]);
        if stack.contains(i as usize) {
            let s = choose|s: int| 0 <= s < stack.len() && stack[s] == i as usize;
            assert(stack2[s] == i as usize);
        }
        assert(children_marked(cells, marks, i, cells[i].children().len() as int));
    }
}

/// Once no cell is waiting, every reachable cell is marked.
proof fn lemma_closed(cells: Seq<CellView>, roots: Set<Value>, marks: Seq<bool>, path: Seq<int>)
    requires
        walking(cells, roots, marks, Seq::empty(), -1),
        forall|v: Value, j: int|
            #[trigger] roots.contains(v) && 0 <= j < cells.len() && points_to(v, j)
                ==> #[trigger] marks[j],
        is_path(cells, roots, path),
    ensures
        marks[path.last()],
    decreases path.len(),
{
    if path.len() == 1 {
        let v = choose|v: Value| #[trigger] roots.contains(v) && points_to(v, path[0]);
        assert(marks[path[0]]);
    } else {
        let shorter = path.drop_last();
        assert(is_path(cells, roots, shorter)) by {
            assert(shorter[0] == path[0]);
            assert forall|m: int| 0 <= m < shorter.len() - 1 implies edge(
                cells,
                #[trigger] shorter[m],
                shorter[m + 1],
            ) by {
                assert(shorter[m] == path[m]);
                assert(shorter[m + 1] == path[m + 1]);
            }
            assert forall|m: int| 0 <= m < shorter.len() implies 0 <= #[trigger] shorter[m]
                < cells.len() by {
                assert(shorter[m] == path[m]);
            }
        }
        lemma_closed(cells, roots, marks, shorter);
        let i = shorter.last();
        let j = path.last();
        assert(path[path.len() - 2] == i);
        assert(edge(cells, path[path.len() - 2], path[path.len() - 2 + 1]));
        let k = choose|k: int|
            0 <= k < cells[i].children().len() && points_to(#[trigger] cells[i].children()[k], j);
        assert(!Seq::<usize>::empty().contains(i as usize));
        assert(children_marked(cells, marks, i, cells[i].children().len() as int));
        assert(0 <= path[path.len() - 1] < cells.len());
    }
}

proof fn lemma_free_indices(cells: Seq<CellView>, n: nat)
    requires
        n <= cells.len(),
        n <= usize::MAX,
    ensures
        forall|k: int|
            0 <= k < free_indices(cells, n).len() ==> (#[trigger] free_indices(cells, n)[k]) < n
                && cells[free_indices(cells, n)[k] as int] is Free,
        forall|j: int, k: int|
            0 <= j < k < free_indices(cells, n).len() ==> free_indices(cells, n)[j]
                < free_indices(cells, n)[k],
    decreases n,
{
    if n > 0 {
        lemma_free_indices(cells, (n - 1) as nat);
    }
}

/// A collected block is well formed.
pub proof fn lemma_collected_wf(b: BlockView, roots: Set<Value>)
    requires
        b.wf(),
    ensures
        collected(b, roots).wf(),
{
    lemma_free_indices(swept(b.cells, roots), b.cells.len());
}

impl Block {
    /// Collects the block: every cell that cannot be reached from `roots`
    /// becomes free, every other cell stays as it is and where it is.
    pub fn collect(&mut self, roots: &Vec<Value>)
        requires
            old(self)@.wf(),
        ensures
            final(self)@ == collected(old(self)@, roots@.to_set()),
            final(self)@.wf(),
    {
        let n = self.cells.len();
        let ghost cells = self@.cells;
        let ghost root_set = roots@.to_set();
        let mut marks: Vec<bool> = Vec::new();
        let mut i: usize = 0;
        while i < n
            invariant
                i <= n,
                marks@.len() == i,
                forall|j: int| 0 <= j < i ==> !marks@[j],
            decreases n - i,
        {
            marks.push(false);
            i += 1;
        }
        let mut stack: Vec<usize> = Vec::new();
        let mut r: usize = 0;
        assert(walking(cells, root_set, marks@, stack@, -1));
        while r < roots.len()
            invariant
                r <= roots@.len(),
                cells.len() == n,
                root_set == roots@.to_set(),
                walking(cells, root_set, marks@, stack@, -1),
                forall|q: int, j: int|
                    0 <= q < r && 0 <= j < cells.len() && points_to(#[trigger] roots@[q], j)
                        ==> #[trigger] marks@[j],
            decreases roots@.len() - r,
        {
            let ghost before = marks@;
            let ghost waiting = stack@;
            let hit = visit(roots[r], &mut marks, &mut stack);
            proof {
                assert(root_set.contains(roots@[r as int]));
                if hit {
                    lemma_mark_root(cells, root_set, before, waiting, roots@[r as int]);
                }
            }
            r += 1;
        }
        assert forall|v: Value, j: int|
            #[trigger] root_set.contains(v) && 0 <= j < cells.len() && points_to(
                v,
                j,
            ) implies #[trigger] marks@[j] by {
            let q = choose|q: int| 0 <= q < roots@.len() && roots@[q] == v;
            assert(points_to(roots@[q], j));
        }
        while stack.len() > 0
            invariant
                cells.len() == n,
                cells == self@.cells,
                walking(cells, root_set, marks@, stack@, -1),
                forall|v: Value, j: int|
                    #[trigger] root_set.contains(v) && 0 <= j < cells.len() && points_to(v, j)
                        ==> #[trigger] marks@[j],
            decreases unmarked(marks@) + stack@.len(),
        {
            let ghost measure = unmarked(marks@) + stack@.len();
            let ghost before_pop = stack@;
            let current = stack.pop().unwrap();
            assert(before_pop[before_pop.len() - 1] == current);
            let count = self.cells[current].child_count();
            let mut k: usize = 0;
            assert(walking(cells, root_set, marks@, stack@, current as int)) by {
                assert forall|i: int|
                    0 <= i < cells.len() && #[trigger] marks@[i] && i != current as int
                        && !stack@.contains(i as usize) implies children_marked(
                    cells,
                    marks@,
                    i,
                    cells[i].children().len() as int,
                ) by {
                    if before_pop.contains(i as usize) {
                        let s = choose|s: int| 0 <= s < before_pop.len() && before_pop[s] == i as usize;
                        assert(stack@[s] == i as usize);
                    }
                }
                assert forall|s: int| 0 <= s < stack@.len() implies (#[trigger] stack@[s])
                    < cells.len() && marks@[stack@[s] as int] by {
                    assert(stack@[s] == before_pop[s]);
                }
            }
            while k < count
                invariant
                    k <= count,
                    current < n,
                    cells.len() == n,
                    cells == self@.cells,
                    count == cells[current as int].children().len(),
                    marks@[current as int],
                    walking(cells, root_set, marks@, stack@, current as int),
                    children_marked(cells, marks@, current as int, k as int),
                    unmarked(marks@) + stack@.len() + 1 == measure,
                    forall|v: Value, j: int|
                        #[trigger] root_set.contains(v) && 0 <= j < cells.len() && points_to(v, j)
                            ==> #[trigger] marks@[j],
                decreases count - k,
            {
                let child = self.cells[current].child(k);
                let ghost before = marks@;
                let ghost waiting = stack@;
                let hit = visit(child, &mut marks, &mut stack);
                proof {
                    if hit {
                        lemma_mark_child(cells, root_set, before, waiting, current as int, k as int);
                        lemma_unmarked_update(before, child.index_spec() as int);
                    }
                    assert(children_marked(cells, marks@, current as int, k + 1)) by {
                        assert forall|m: int, j: int|
                            0 <= m < k + 1 && 0 <= j < cells.len() && points_to(
                                #[trigger] cells[current as int].children()[m],
                                j,
                            ) implies #[trigger] marks@[j] by {
                            if m < k {
                                assert(before[j]);
                            }
                        }
                    }
                }
                k += 1;
            }
            proof {
                assert(walking(cells, root_set, marks@, stack@, -1));
            }
        }
        proof {
            assert(stack@ =~= Seq::empty());
            assert forall|j: int| 0 <= j < cells.len() implies (marks@[j] <==> reachable(
                cells,
                root_set,
                j,
            )) by {
                if reachable(cells, root_set, j) {
                    let path = choose|path: Seq<int>|
                        #[trigger] is_path(cells, root_set, path) && path.last() == j;
                    lemma_closed(cells, root_set, marks@, path);
                }
            }
        }
        let ghost goal = swept(cells, root_set);
        self.free.clear();
        let mut i: usize = 0;
        while i < n
            invariant
                i <= n,
                n == cells.len(),
                n == self.cells@.len(),
                n <= usize::MAX,
                marks@.len() == n,
                goal == swept(cells, root_set),
                self.read_only == old(self).read_only,
                self.budget == old(self).budget,
                forall|j: int| 0 <= j < n ==> (marks@[j] <==> reachable(cells, root_set, j)),
                forall|j: int| 0 <= j < i ==> self.cells@[j]@ == goal[j],
                forall|j: int| i <= j < n ==> self.cells@[j]@ == cells[j],
                self.free@ == free_indices(goal, i as nat),
            decreases n - i,
        {
            if !marks[i] {
                self.cells[i] = Cell::Free;
            }
            let vacant = match &self.cells[i] {
                Cell::Free => true,
                _ => false,
            };
            if vacant {
                self.free.push(i);
            }
            i += 1;
        }
        proof {
            assert(self@.cells =~= goal);
            lemma_free_indices(goal, n as nat);
        }
    }
}

} // verus!
