//! A heap block: an arena of cells with a free list.
use crate::cell::Cell;
use crate::cell::CellView;
use crate::value::MAX_INDEX;
use vstd::prelude::*;

verus! {

/// An arena of cells. A cell keeps its index for as long as it is in use, so
/// references stay valid while other cells come and go.
#[derive(Debug)]
pub struct Block {
    /// The cells, in use or free.
    pub cells: Vec<Cell>,
    /// The indices of the free cells; the last one is handed out next.
    pub free: Vec<usize>,
    /// Whether the cells of this block may no longer be changed.
    pub read_only: bool,
    /// The number of cells in use from which a collection is due.
    pub budget: usize,
}

/// A block as plain mathematical data.
pub struct BlockView {
    pub cells: Seq<CellView>,
    pub free: Seq<usize>,
    pub read_only: bool,
    pub budget: usize,
}

impl BlockView {
    /// The free list names free cells only, and each at most once; every
    /// index fits into a reference.
    pub open spec fn wf(self) -> bool {
        &&& self.cells.len() <= MAX_INDEX + 1
        &&& self.cells.len() <= usize::MAX
        &&& forall|k: int|
            0 <= k < self.free.len() ==> (#[trigger] self.free[k]) < self.cells.len()
                && self.cells[self.free[k] as int] is Free
        &&& forall|j: int, k: int|
            0 <= j < k < self.free.len() ==> self.free[j] != self.free[k]
    }

    /// The empty block.
    pub open spec fn empty(read_only: bool, budget: usize) -> BlockView {
        BlockView { cells: Seq::empty(), free: Seq::empty(), read_only, budget }
    }

    /// The number of cells in use.
    pub open spec fn in_use(self) -> int {
        self.cells.len() - self.free.len()
    }

    /// The index that the next allocation takes, if there is room: the last
    /// entry of the free list, or else the end of the block.
    pub open spec fn next_index(self) -> Option<nat> {
        if self.free.len() > 0 {
            Some(self.free.last() as nat)
        } else if self.cells.len() <= MAX_INDEX && self.cells.len() < usize::MAX {
            Some(self.cells.len())
        } else {
            None
        }
    }

    /// The block after `cell` has been put at `next_index()`; unchanged where
    /// there is no room.
    pub open spec fn allocate(self, cell: CellView) -> BlockView {
        if self.free.len() > 0 {
            BlockView {
                cells: self.cells.update(self.free.last() as int, cell),
                free: self.free.drop_last(),
                ..self
            }
        } else if self.cells.len() <= MAX_INDEX && self.cells.len() < usize::MAX {
            BlockView { cells: self.cells.push(cell), ..self }
        } else {
            self
        }
    }

    /// The block with the cell at `index` replaced.
    pub open spec fn replace(self, index: int, cell: CellView) -> BlockView {
        BlockView { cells: self.cells.update(index, cell), ..self }
    }
}

impl View for Block {
    type V = BlockView;

    open spec fn view(&self) -> BlockView {
        BlockView {
            cells: Seq::new(self.cells@.len(), |i: int| self.cells@[i]@),
            free: self.free@,
            read_only: self.read_only,
            budget: self.budget,
        }
    }
}

impl Block {
    /// An empty block that is collected once `budget` cells are in use.
    pub fn new(read_only: bool, budget: usize) -> (b: Block)
        ensures
            b@ == BlockView::empty(read_only, budget),
            b@.wf(),
    {
        let b = Block { cells: Vec::new(), free: Vec::new(), read_only, budget };
        assert(b@.cells =~= Seq::empty());
        b
    }

    /// The number of cells, in use or free.
    pub fn len(&self) -> (n: usize)
        ensures
            n == self@.cells.len(),
    {
        self.cells.len()
    }

    /// The number of cells in use.
    pub fn in_use(&self) -> (n: usize)
        requires
            self@.wf(),
        ensures
            n == self@.in_use(),
    {
        proof {
            lemma_free_bounded(self@);
        }
        self.cells.len() - self.free.len()
    }

    /// Puts `cell` into a free cell, or at the end of the block, and returns
    /// its index; `None`, with the block unchanged, where the block is full.
    pub fn allocate(&mut self, cell: Cell) -> (index: Option<u64>)
        requires
            old(self)@.wf(),
            !(cell@ is Free),
        ensures
            final(self)@ == old(self)@.allocate(cell@),
            final(self)@.wf(),
            match index {
                Some(i) => old(self)@.next_index() == Some(i as nat) && i <= MAX_INDEX,
                None => old(self)@.next_index().is_none(),
            },
    {
        if self.free.len() > 0 {
            let index = self.free.pop().unwrap();
            assert(old(self)@.free[old(self)@.free.len() - 1] == index);
            self.cells[index] = cell;
            assert(self@.cells =~= old(self)@.cells.update(index as int, cell@));
            assert(self@.wf()) by {
                assert forall|k: int| 0 <= k < self@.free.len() implies (#[trigger] self@.free[k])
                    < self@.cells.len() && self@.cells[self@.free[k] as int] is Free by {
                    assert(self@.free[k] == old(self)@.free[k]);
                }
            }
            Some(index as u64)
        } else if self.cells.len() as u64 <= MAX_INDEX && self.cells.len() < usize::MAX {
            let index = self.cells.len();
            self.cells.push(cell);
            assert(self@.cells =~= old(self)@.cells.push(cell@));
            Some(index as u64)
        } else {
            None
        }
    }

    /// The cell at `index`, if the block is that long.
    pub fn cell(&self, index: u64) -> (c: Option<&Cell>)
        ensures
            match c {
                Some(cell) => index < self@.cells.len() && cell@ == self@.cells[index as int],
                None => index >= self@.cells.len(),
            },
    {
        if index < self.cells.len() as u64 {
            Some(&self.cells[index as usize])
        } else {
            None
        }
    }

    /// Whether the block is well formed.
    pub fn well_formed(&self) -> (b: bool)
        ensures
            b == self@.wf(),
    {
        let n = self.cells.len();
        if n as u64 > MAX_INDEX + 1 {
            return false;
        }
        let mut seen: Vec<bool> = Vec::new();
        let mut i: usize = 0;
        while i < n
            invariant
                i <= n,
                seen@.len() == i,
                forall|j: int| 0 <= j < i ==> !seen@[j],
            decreases n - i,
        {
            seen.push(false);
            i += 1;
        }
        let mut k: usize = 0;
        while k < self.free.len()
            invariant
                k <= self.free@.len(),
                n == self.cells@.len(),
                n == self@.cells.len(),
                n <= MAX_INDEX + 1,
                seen@.len() == n,
                forall|m: int|
                    0 <= m < n ==> (#[trigger] seen@[m] <==> exists|j: int|
                        0 <= j < k && self.free@[j] == m),
                forall|j: int|
                    0 <= j < k ==> (#[trigger] self.free@[j]) < n && self@.cells[self.free@[j] as int] is Free,
                forall|i: int, j: int| 0 <= i < j < k ==> self.free@[i] != self.free@[j],
            decreases self.free@.len() - k,
        {
            let f = self.free[k];
            if f >= n {
                assert(!(self@.free[k as int] < self@.cells.len()));
                return false;
            }
            let vacant = match &self.cells[f] {
                Cell::Free => true,
                _ => false,
            };
            if !vacant {
                assert(!(self@.cells[self@.free[k as int] as int] is Free));
                return false;
            }
            if seen[f] {
                proof {
                    let j = choose|j: int| 0 <= j < k && self.free@[j] == f as int;
                    assert(self@.free[j] == self@.free[k as int]);
                }
                return false;
            }
            let ghost before = seen@;
            seen[f] = true;
            assert forall|m: int| 0 <= m < n implies (#[trigger] seen@[m] <==> exists|j: int|
                0 <= j < k + 1 && self.free@[j] == m) by {
                if m == f as int {
                    assert(self.free@[k as int] == m);
                } else {
                    if before[m] {
                        let j = choose|j: int| 0 <= j < k && self.free@[j] == m;
                        assert(0 <= j < k + 1 && self.free@[j] == m);
                    }
                    if exists|j: int| 0 <= j < k + 1 && self.free@[j] == m {
                        let j = choose|j: int| 0 <= j < k + 1 && self.free@[j] == m;
                        assert(j < k);
                    }
                }
            }
            assert forall|i: int, j: int| 0 <= i < j < k + 1 implies self.free@[i]
                != self.free@[j] by {
                if j == k {
                    if self.free@[i] == f {
                        assert(before[f as int]);
                    }
                }
            }
            k += 1;
        }
        true
    }

    /// Replaces the cell in use at `index` by another.
    pub fn replace(&mut self, index: usize, cell: Cell)
        requires
            old(self)@.wf(),
            index < old(self)@.cells.len(),
            !(old(self)@.cells[index as int] is Free),
            !(cell@ is Free),
        ensures
            final(self)@ == old(self)@.replace(index as int, cell@),
            final(self)@.wf(),
    {
        self.cells[index] = cell;
        assert(self@.cells =~= old(self)@.cells.update(index as int, cell@));
    }
}

/// A well-formed free list is no longer than the block.
pub proof fn lemma_free_bounded(b: BlockView)
    requires
        b.wf(),
    ensures
        b.free.len() <= b.cells.len(),
{
    let s = b.free.to_set();
    b.free.unique_seq_to_set();
    let all = Set::new(|i: usize| i < b.cells.len());
    assert(s.subset_of(all)) by {
        assert forall|i: usize| s.contains(i) implies all.contains(i) by {
            let k = choose|k: int| 0 <= k < b.free.len() && b.free[k] == i;
            assert(b.free[k] < b.cells.len());
        }
    }
    lemma_usize_below(b.cells.len());
    vstd::set_lib::lemma_len_subset(s, all);
}

/// There are `n` machine indices below `n`.
pub proof fn lemma_usize_below(n: nat)
    requires
        n <= usize::MAX,
    ensures
        Set::new(|i: usize| i < n).finite(),
        Set::new(|i: usize| i < n).len() == n,
    decreases n,
{
    let s = Set::new(|i: usize| i < n);
    if n == 0 {
        assert(s =~= Set::empty());
    } else {
        let t = Set::new(|i: usize| i < (n - 1) as nat);
        lemma_usize_below((n - 1) as nat);
        assert(s =~= t.insert((n - 1) as usize));
    }
}

} // verus!
