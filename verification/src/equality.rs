//! The three equalities of Lisp: `eq` compares values, `eql` also numbers,
//! `equal` also what is inside cells.
use crate::cell::Cell;
use crate::cell::CellView;
use crate::context::Context;
use crate::context::CxView;
use crate::value::Value;
use vstd::prelude::*;

verus! {

/// Whether `a` and `b` are the same value: the same immediate, the same
/// symbol, or references to the same cell.
pub open spec fn eq_spec(a: Value, b: Value) -> bool {
    a == b
}

/// Whether `a` and `b` are the same value or floating-point numbers of the
/// same bits.
pub open spec fn eql_spec(cx: CxView, a: Value, b: Value) -> bool {
    a == b || match (cx.cell_of(a), cx.cell_of(b)) {
        (Some(CellView::Float(x)), Some(CellView::Float(y))) => x == y,
        _ => false,
    }
}

/// Whether `xs[k..]` and `ys[k..]` are equal, place by place.
pub open spec fn equal_items(cx: CxView, xs: Seq<Value>, ys: Seq<Value>, k: nat, depth: nat) -> bool
    decreases depth, xs.len() - k,
{
    if k >= xs.len() {
        true
    } else {
        equal_spec(cx, xs[k as int], ys[k as int], depth) && equal_items(cx, xs, ys, k + 1, depth)
    }
}

/// Whether `a` and `b` are the same value or hold equal things: cons cells
/// with equal slots, vectors with equal elements, strings with the same
/// text, numbers of the same bits. Cells are looked into `depth` deep.
pub open spec fn equal_spec(cx: CxView, a: Value, b: Value, depth: nat) -> bool
    decreases depth, 0nat,
{
    a == b || (depth > 0 && match (cx.cell_of(a), cx.cell_of(b)) {
        (Some(CellView::Float(x)), Some(CellView::Float(y))) => x == y,
        (Some(CellView::String(x)), Some(CellView::String(y))) => x == y,
        (Some(CellView::ByteString(x)), Some(CellView::ByteString(y))) => x == y,
        (
            Some(CellView::Cons { car: a1, cdr: a2, .. }),
            Some(CellView::Cons { car: b1, cdr: b2, .. }),
        ) => equal_spec(cx, a1, b1, (depth - 1) as nat) && equal_spec(
            cx,
            a2,
            b2,
            (depth - 1) as nat,
        ),
        (Some(CellView::Vector(xs)), Some(CellView::Vector(ys))) => xs.len() == ys.len()
            && equal_items(cx, xs, ys, 0, (depth - 1) as nat),
        _ => false,
    })
}

fn same_bytes(x: &crate::string::ByteStringInner, y: &crate::string::ByteStringInner) -> (b: bool)
    ensures
        b == (x@ == y@),
{
    if x.len() != y.len() {
        return false;
    }
    let mut i: usize = 0;
    while i < x.len()
        invariant
            x@.len() == y@.len(),
            i <= x@.len(),
            forall|j: int| 0 <= j < i ==> x@[j] == y@[j],
        decreases x@.len() - i,
    {
        if x.get(i) != y.get(i) {
            return false;
        }
        i += 1;
    }
    assert(x@ =~= y@);
    true
}

impl Context {
    /// Whether `a` and `b` are the same value.
    pub fn eq(&self, a: Value, b: Value) -> (r: bool)
        ensures
            r == eq_spec(a, b),
    {
        a == b
    }

    /// Whether `a` and `b` are the same value or equal numbers.
    pub fn eql(&self, a: Value, b: Value) -> (r: bool)
        ensures
            r == eql_spec(self@, a, b),
    {
        if a == b {
            return true;
        }
        match (self.cell(a), self.cell(b)) {
            (Some(Cell::Float(x)), Some(Cell::Float(y))) => *x == *y,
            _ => false,
        }
    }

    /// Whether `a` and `b` are the same value or hold equal things, looked
    /// into `depth` deep.
    pub fn equal(&self, a: Value, b: Value, depth: u64) -> (r: bool)
        ensures
            r == equal_spec(self@, a, b, depth as nat),
        decreases depth,
    {
        if a == b {
            return true;
        }
        if depth == 0 {
            return false;
        }
        match (self.cell(a), self.cell(b)) {
            (Some(Cell::Float(x)), Some(Cell::Float(y))) => *x == *y,
            (Some(Cell::String(x)), Some(Cell::String(y))) => x.same(y),
            (Some(Cell::ByteString(x)), Some(Cell::ByteString(y))) => same_bytes(x, y),
            (Some(Cell::Cons { car: a1, cdr: a2, .. }), Some(Cell::Cons { car: b1, cdr: b2, .. })) => {
                self.equal(*a1, *b1, depth - 1) && self.equal(*a2, *b2, depth - 1)
            },
            (Some(Cell::Vector(xs)), Some(Cell::Vector(ys))) => {
                if xs.len() != ys.len() {
                    return false;
                }
                let mut k: usize = 0;
                while k < xs.len()
                    invariant
                        depth > 0,
                        xs@.len() == ys@.len(),
                        k <= xs@.len(),
                        equal_items(self@, xs@, ys@, k as nat, (depth - 1) as nat) == equal_spec(
                            self@,
                            a,
                            b,
                            depth as nat,
                        ),
                    decreases xs@.len() - k,
                {
                    if !self.equal(xs[k], ys[k], depth - 1) {
                        return false;
                    }
                    k += 1;
                }
                true
            },
            _ => false,
        }
    }
}

} // verus!
