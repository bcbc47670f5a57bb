//! What `set_func` installs is a faithful copy: cell for cell what the
//! function was made of, with every reference leading into the global block.
use crate::block::BlockView;
use crate::cell::CellView;
use crate::error::Error;
use crate::symbol_map::clone_children;
use crate::symbol_map::clone_spec;
use crate::symbol_map::nonlocal;
use crate::symbol_map::sealed;
use crate::symbol_map::sealed_cell;
use crate::value::lemma_pack;
use crate::value::Value;
use crate::value::MAX_INDEX;
use vstd::prelude::*;

verus! {

/// Whether `c` is a copy of `v`, looked into `depth` deep: a value that is
/// no local reference is its own copy; a reference to a cell of `src` is
/// copied by a reference of the same kind into `dst`, to a cell that holds
/// what the cell of `src` holds, with copies in the place of its children.
pub open spec fn copy_of(src: Seq<CellView>, dst: Seq<CellView>, v: Value, c: Value, depth: nat) -> bool
    decreases depth,
{
    if nonlocal(v) {
        c == v
    } else {
        &&& v.index_spec() < src.len()
        &&& c.tag_spec() == v.tag_spec()
        &&& c.global_spec()
        &&& c.index_spec() < dst.len()
        &&& depth > 0 ==> {
            let from = src[v.index_spec() as int];
            let to = dst[c.index_spec() as int];
            &&& from.tag() == Some(v.tag_spec())
            &&& to.children().len() == from.children().len()
            &&& to == from.with_children(to.children(), false)
            &&& forall|k: int|
                0 <= k < from.children().len() ==> copy_of(
                    src,
                    dst,
                    #[trigger] from.children()[k],
                    to.children()[k],
                    (depth - 1) as nat,
                )
        }
    }
}

/// Whether `after` has every cell in use of `before`, as it was.
pub open spec fn grown(before: Seq<CellView>, after: Seq<CellView>) -> bool {
    &&& before.len() <= after.len()
    &&& forall|i: int| 0 <= i < before.len() && !(#[trigger] before[i] is Free) ==> after[i] == before[i]
}

/// Putting a cell into a block leaves the block well formed and every cell
/// in use as it was, and the new cell is where `next_index` says.
pub proof fn lemma_allocate(b: BlockView, cell: CellView)
    requires
        b.wf(),
        !(cell is Free),
    ensures
        b.allocate(cell).wf(),
        grown(b.cells, b.allocate(cell).cells),
        b.next_index() matches Some(i) ==> i < b.allocate(cell).cells.len() && i <= MAX_INDEX
            && b.allocate(cell).cells[i as int] == cell,
{
    let after = b.allocate(cell);
    if b.free.len() > 0 {
        let index = b.free.last();
        assert(b.free[b.free.len() - 1] == index);
        assert forall|k: int| 0 <= k < after.free.len() implies (#[trigger] after.free[k])
            < after.cells.len() && after.cells[after.free[k] as int] is Free by {
            assert(after.free[k] == b.free[k]);
        }
        assert forall|j: int, k: int| 0 <= j < k < after.free.len() implies after.free[j]
            != after.free[k] by {
            assert(after.free[j] == b.free[j]);
            assert(after.free[k] == b.free[k]);
        }
    }
}

/// A copy stays a copy when the block of the copy grows.
pub proof fn lemma_copy_stays(
    src: Seq<CellView>,
    before: Seq<CellView>,
    after: Seq<CellView>,
    v: Value,
    c: Value,
    depth: nat,
)
    requires
        copy_of(src, before, v, c, depth),
        grown(before, after),
    ensures
        copy_of(src, after, v, c, depth),
    decreases depth,
{
    if !nonlocal(v) && depth > 0 {
        let from = src[v.index_spec() as int];
        let to = before[c.index_spec() as int];
        assert(!(to is Free)) by {
            if to is Free {
                assert(from.with_children(to.children(), false) is Free);
            }
        }
        assert(after[c.index_spec() as int] == to);
        assert forall|k: int| 0 <= k < from.children().len() implies copy_of(
            src,
            after,
            #[trigger] from.children()[k],
            to.children()[k],
            (depth - 1) as nat,
        ) by {
            lemma_copy_stays(
                src,
                before,
                after,
                from.children()[k],
                to.children()[k],
                (depth - 1) as nat,
            );
        }
    }
}

/// Growing is transitive.
pub proof fn lemma_grown_trans(a: Seq<CellView>, b: Seq<CellView>, c: Seq<CellView>)
    requires
        grown(a, b),
        grown(b, c),
    ensures
        grown(a, c),
{
    assert forall|i: int| 0 <= i < a.len() && !(#[trigger] a[i] is Free) implies c[i] == a[i] by {
        assert(b[i] == a[i]);
    }
}

/// A cell rebuilt around as many children as it had has just them as its
/// children.
pub proof fn lemma_with_children(cell: CellView, children: Seq<Value>)
    requires
        children.len() == cell.children().len(),
    ensures
        cell.with_children(children, false).children() == children,
        cell.with_children(children, false).tag() == cell.tag(),
        cell.with_children(children, false).with_children(children, false) == cell.with_children(
            children,
            false,
        ),
{
    assert(cell.with_children(children, false).children() =~= children);
}

/// Faithful copies: what `set_func` copies into the global block is, cell
/// for cell and however deep one looks, what the function was made of, and
/// the cells that were in the global block before are as they were.
pub proof fn law_clone_is_copy(src: Seq<CellView>, dst: BlockView, v: Value, depth: nat, look: nat)
    requires
        dst.wf(),
    ensures
        clone_spec(src, dst, v, depth).0.wf(),
        grown(dst.cells, clone_spec(src, dst, v, depth).0.cells),
        clone_spec(src, dst, v, depth).1 matches Ok(c) ==> copy_of(
            src,
            clone_spec(src, dst, v, depth).0.cells,
            v,
            c,
            look,
        ),
    decreases depth, 0nat, 0nat,
{
    if nonlocal(v) {
    } else if depth == 0 {
    } else if v.index_spec() >= src.len() || src[v.index_spec() as int].tag() != Some(v.tag_spec()) {
    } else {
        let cell = src[v.index_spec() as int];
        let inner = if look > 0 {
            (look - 1) as nat
        } else {
            0
        };
        lemma_clone_children(src, dst, cell.children(), 0, Seq::empty(), (depth - 1) as nat, inner);
        let (dst1, kids) = clone_children(
            src,
            dst,
            cell.children(),
            0,
            Seq::empty(),
            (depth - 1) as nat,
        );
        match kids {
            Err(_) => {},
            Ok(children) => {
                let copy = cell.with_children(children, false);
                lemma_with_children(cell, children);
                lemma_allocate(dst1, copy);
                match dst1.next_index() {
                    None => {},
                    Some(i) => {
                        let dst2 = dst1.allocate(copy);
                        lemma_pack(v.tag_spec(), true, i);
                        lemma_grown_trans(dst.cells, dst1.cells, dst2.cells);
                        if look > 0 {
                            assert forall|k: int| 0 <= k < cell.children().len() implies copy_of(
                                src,
                                dst2.cells,
                                #[trigger] cell.children()[k],
                                copy.children()[k],
                                (look - 1) as nat,
                            ) by {
                                lemma_copy_stays(
                                    src,
                                    dst1.cells,
                                    dst2.cells,
                                    cell.children()[k],
                                    children[k],
                                    (look - 1) as nat,
                                );
                            }
                        }
                    },
                }
            },
        }
    }
}

/// The copies of the children of a cell are copies, each of its child.
pub proof fn lemma_clone_children(
    src: Seq<CellView>,
    dst: BlockView,
    children: Seq<Value>,
    k: nat,
    done: Seq<Value>,
    depth: nat,
    look: nat,
)
    requires
        dst.wf(),
        done.len() == k,
        k <= children.len(),
        forall|j: int| 0 <= j < k ==> copy_of(src, dst.cells, #[trigger] children[j], done[j], look),
    ensures
        clone_children(src, dst, children, k, done, depth).0.wf(),
        grown(dst.cells, clone_children(src, dst, children, k, done, depth).0.cells),
        clone_children(src, dst, children, k, done, depth).1 matches Ok(all) ==> all.len()
            == children.len() && forall|j: int|
            0 <= j < children.len() ==> copy_of(
                src,
                clone_children(src, dst, children, k, done, depth).0.cells,
                #[trigger] children[j],
                all[j],
                look,
            ),
    decreases depth, 1nat, children.len() - k,
{
    if k < children.len() {
        law_clone_is_copy(src, dst, children[k as int], depth, look);
        let (dst1, r) = clone_spec(src, dst, children[k as int], depth);
        match r {
            Err(_) => {},
            Ok(c) => {
                let more = done.push(c);
                assert forall|j: int| 0 <= j < k + 1 implies copy_of(
                    src,
                    dst1.cells,
                    #[trigger] children[j],
                    more[j],
                    look,
                ) by {
                    if j < k {
                        lemma_copy_stays(src, dst.cells, dst1.cells, children[j], done[j], look);
                    }
                }
                lemma_clone_children(src, dst1, children, k + 1, more, depth, look);
                let after = clone_children(src, dst1, children, k + 1, more, depth).0;
                lemma_grown_trans(dst.cells, dst1.cells, after.cells);
            },
        }
    }
}

/// Copying keeps the block of the copies sealed, and gives a value that is
/// no local reference.
pub proof fn lemma_clone_sealed(src: Seq<CellView>, dst: BlockView, v: Value, depth: nat)
    requires
        dst.wf(),
        sealed(dst.cells),
    ensures
        sealed(clone_spec(src, dst, v, depth).0.cells),
        clone_spec(src, dst, v, depth).1 matches Ok(c) ==> nonlocal(c),
    decreases depth, 0nat, 0nat,
{
    if nonlocal(v) {
    } else if depth == 0 {
    } else if v.index_spec() >= src.len() || src[v.index_spec() as int].tag() != Some(v.tag_spec()) {
    } else {
        let cell = src[v.index_spec() as int];
        lemma_clone_children_sealed(
            src,
            dst,
            cell.children(),
            0,
            Seq::empty(),
            (depth - 1) as nat,
        );
        lemma_clone_children(src, dst, cell.children(), 0, Seq::empty(), (depth - 1) as nat, 0);
        let (dst1, kids) = clone_children(
            src,
            dst,
            cell.children(),
            0,
            Seq::empty(),
            (depth - 1) as nat,
        );
        match kids {
            Err(_) => {},
            Ok(children) => {
                let copy = cell.with_children(children, false);
                lemma_with_children(cell, children);
                lemma_allocate(dst1, copy);
                match dst1.next_index() {
                    None => {},
                    Some(i) => {
                        lemma_pack(v.tag_spec(), true, i);
                        let dst2 = dst1.allocate(copy);
                        assert(sealed_cell(copy));
                        assert forall|j: int| 0 <= j < dst2.cells.len() implies sealed_cell(
                            #[trigger] dst2.cells[j],
                        ) by {
                            if j != i {
                                assert(sealed_cell(dst1.cells[j]));
                            }
                        }
                    },
                }
            },
        }
    }
}

/// Copying the children of a cell keeps the block of the copies sealed,
/// and none of the copies is a local reference.
pub proof fn lemma_clone_children_sealed(
    src: Seq<CellView>,
    dst: BlockView,
    children: Seq<Value>,
    k: nat,
    done: Seq<Value>,
    depth: nat,
)
    requires
        dst.wf(),
        sealed(dst.cells),
        forall|j: int| 0 <= j < done.len() ==> nonlocal(#[trigger] done[j]),
    ensures
        sealed(clone_children(src, dst, children, k, done, depth).0.cells),
        clone_children(src, dst, children, k, done, depth).1 matches Ok(all) ==> forall|j: int|
            0 <= j < all.len() ==> nonlocal(#[trigger] all[j]),
    decreases depth, 1nat, children.len() - k,
{
    if k < children.len() {
        lemma_clone_sealed(src, dst, children[k as int], depth);
        law_clone_is_copy(src, dst, children[k as int], depth, 0);
        let (dst1, r) = clone_spec(src, dst, children[k as int], depth);
        match r {
            Err(_) => {},
            Ok(c) => {
                let more = done.push(c);
                assert forall|j: int| 0 <= j < more.len() implies nonlocal(#[trigger] more[j]) by {
                    if j < done.len() {
                        assert(more[j] == done[j]);
                    }
                }
                lemma_clone_children_sealed(src, dst1, children, k + 1, more, depth);
            },
        }
    }
}

} // verus!
