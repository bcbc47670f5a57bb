//! The symbol table: names interned to symbols, each with a function cell,
//! and the global block in which installed functions live.
use crate::block::Block;
use crate::block::BlockView;
use crate::cell::Cell;
use crate::cell::CellView;
use crate::cell::LispBuffer;
use crate::cell::SubrFn;
use crate::cell::SUBR_COUNT;
use crate::error::Error;
use crate::symbol::builtin_name;
use crate::symbol::builtin_name_spec;
use crate::symbol::Symbol;
use crate::symbol::BUILTIN_SYMBOLS;
use crate::symbol::FIRST_SUBR;
use crate::value::lemma_pack;
use crate::value::Tag;
use crate::value::Value;
use crate::value::MAX_INDEX;
use vstd::prelude::*;
use vstd::string::StringExecFns;

verus! {

/// One symbol: its name, its function cell, and whether `intern` finds it.
#[derive(Debug)]
pub struct SymbolCell {
    pub name: String,
    pub func: Option<Value>,
    pub interned: bool,
}

/// A symbol as plain mathematical data.
pub struct SymbolView {
    pub name: Seq<char>,
    pub func: Option<Value>,
    pub interned: bool,
}

impl View for SymbolCell {
    type V = SymbolView;

    open spec fn view(&self) -> SymbolView {
        SymbolView { name: self.name@, func: self.func, interned: self.interned }
    }
}

/// The number of the first interned symbol called `name` at or after `from`.
pub open spec fn find_from(map: Seq<SymbolView>, name: Seq<char>, from: nat) -> Option<nat>
    decreases map.len() - from,
{
    if from >= map.len() {
        None
    } else if map[from as int].interned && map[from as int].name == name {
        Some(from)
    } else {
        find_from(map, name, from + 1)
    }
}

/// The number of the interned symbol called `name`, if there is one.
pub open spec fn lookup(map: Seq<SymbolView>, name: Seq<char>) -> Option<nat> {
    find_from(map, name, 0)
}

/// The number of the symbol that interning `name` gives: the one that is
/// there, or a new one at the end; `None` where the table is full.
pub open spec fn intern_index(map: Seq<SymbolView>, name: Seq<char>) -> Option<nat> {
    match lookup(map, name) {
        Some(i) => Some(i),
        None => if map.len() <= MAX_INDEX {
            Some(map.len())
        } else {
            None
        },
    }
}

/// The table after `name` has been interned.
pub open spec fn intern_table(map: Seq<SymbolView>, name: Seq<char>) -> Seq<SymbolView> {
    if lookup(map, name).is_none() && map.len() <= MAX_INDEX {
        map.push(SymbolView { name, func: None, interned: true })
    } else {
        map
    }
}

/// Whether `v` is no reference into a local block.
pub open spec fn nonlocal(v: Value) -> bool {
    !v.tag_spec().is_heap() || v.global_spec()
}

/// Whether the cell refers to nothing in a local block and, if it is a cons
/// cell, may not be changed.
pub open spec fn sealed_cell(c: CellView) -> bool {
    &&& forall|k: int| 0 <= k < c.children().len() ==> nonlocal(#[trigger] c.children()[k])
    &&& c matches CellView::Cons { mutable, .. } ==> !mutable
}

/// Whether every cell is sealed.
pub open spec fn sealed(cells: Seq<CellView>) -> bool {
    forall|i: int| 0 <= i < cells.len() ==> sealed_cell(#[trigger] cells[i])
}

/// Whether `v` is no reference into a local block.
pub fn is_nonlocal(v: Value) -> (b: bool)
    ensures
        b == nonlocal(v),
{
    !v.tag().heap_kind() || v.is_global()
}

/// Whether the cell is sealed.
pub fn is_sealed(cell: &Cell) -> (b: bool)
    ensures
        b == sealed_cell(cell@),
{
    let n = cell.child_count();
    let mut k: usize = 0;
    while k < n
        invariant
            k <= n,
            n == cell@.children().len(),
            forall|j: int| 0 <= j < k ==> nonlocal(#[trigger] cell@.children()[j]),
        decreases n - k,
    {
        if !is_nonlocal(cell.child(k)) {
            return false;
        }
        k += 1;
    }
    match cell {
        Cell::Cons { mutable, .. } => !*mutable,
        _ => true,
    }
}

/// The outcome of copying what `v` refers to from the local cells `src` into
/// the block `dst`: the block afterwards, and the copy or the error. A value
/// that is no local reference is its own copy. A local cell is copied with
/// its children copied first, in order, and the copy of a cons cell may not be
/// changed. At most `depth` cells are gone through from `v` downwards.
pub open spec fn clone_spec(src: Seq<CellView>, dst: BlockView, v: Value, depth: nat) -> (
    BlockView,
    Result<Value, Error>,
)
    decreases depth, 0nat, 0nat,
{
    if nonlocal(v) {
        (dst, Ok(v))
    } else if depth == 0 {
        (dst, Err(Error::DepthExceeded))
    } else if v.index_spec() >= src.len() || src[v.index_spec() as int].tag() != Some(
        v.tag_spec(),
    ) {
        (dst, Err(Error::StaleReference(v)))
    } else {
        let cell = src[v.index_spec() as int];
        let (dst1, kids) = clone_children(
            src,
            dst,
            cell.children(),
            0,
            Seq::empty(),
            (depth - 1) as nat,
        );
        match kids {
            Err(e) => (dst1, Err(e)),
            Ok(children) => match dst1.next_index() {
                None => (dst1, Err(Error::OutOfMemory)),
                Some(i) => (
                    dst1.allocate(cell.with_children(children, false)),
                    Ok(Value::pack(v.tag_spec(), true, i)),
                ),
            },
        }
    }
}

/// The outcome of copying `children` from the `k`-th on, after `done`.
pub open spec fn clone_children(
    src: Seq<CellView>,
    dst: BlockView,
    children: Seq<Value>,
    k: nat,
    done: Seq<Value>,
    depth: nat,
) -> (BlockView, Result<Seq<Value>, Error>)
    decreases depth, 1nat, children.len() - k,
{
    if k >= children.len() {
        (dst, Ok(done))
    } else {
        let (dst1, r) = clone_spec(src, dst, children[k as int], depth);
        match r {
            Err(e) => (dst1, Err(e)),
            Ok(c) => clone_children(src, dst1, children, k + 1, done.push(c), depth),
        }
    }
}

/// Copies what `v` refers to from the local block `src` into `dst`.
pub fn clone_in(src: &Block, dst: &mut Block, v: Value, depth: u64) -> (r: Result<Value, Error>)
    requires
        old(dst)@.wf(),
        sealed(old(dst)@.cells),
    ensures
        (final(dst)@, r) == clone_spec(src@.cells, old(dst)@, v, depth as nat),
        final(dst)@.wf(),
        sealed(final(dst)@.cells),
        r matches Ok(c) ==> nonlocal(c),
    decreases depth,
{
    if !v.tag().heap_kind() || v.is_global() {
        return Ok(v);
    }
    if depth == 0 {
        return Err(Error::DepthExceeded);
    }
    let cell = match src.cell(v.index()) {
        Some(cell) => cell,
        None => {
            return Err(Error::StaleReference(v));
        },
    };
    let tag = v.tag();
    let matching = match cell.tag() {
        Some(t) => t == tag,
        None => false,
    };
    if !matching {
        return Err(Error::StaleReference(v));
    }
    let count = cell.child_count();
    let mut kids: Vec<Value> = Vec::new();
    let mut k: usize = 0;
    let ghost children = cell@.children();
    let ghost goal = clone_children(src@.cells, dst@, children, 0, Seq::empty(), (depth - 1) as nat);
    while k < count
        invariant
            k <= count,
            count == children.len(),
            children == cell@.children(),
            depth > 0,
            dst@.wf(),
            sealed(dst@.cells),
            forall|j: int| 0 <= j < kids@.len() ==> nonlocal(#[trigger] kids@[j]),
            kids@.len() == k,
            clone_children(src@.cells, dst@, children, k as nat, kids@, (depth - 1) as nat) == goal,
            goal == clone_children(
                src@.cells,
                old(dst)@,
                children,
                0,
                Seq::empty(),
                (depth - 1) as nat,
            ),
            !nonlocal(v),
            v.index_spec() < src@.cells.len(),
            src@.cells[v.index_spec() as int] == cell@,
            cell@.tag() == Some(v.tag_spec()),
        decreases count - k,
    {
        let ghost before = dst@;
        let ghost done = kids@;
        match clone_in(src, dst, cell.child(k), depth - 1) {
            Err(e) => {
                assert(clone_children(
                    src@.cells,
                    before,
                    children,
                    k as nat,
                    done,
                    (depth - 1) as nat,
                ) == (dst@, Err::<Seq<Value>, Error>(e)));
                return Err(e);
            },
            Ok(c) => {
                kids.push(c);
                assert(clone_children(
                    src@.cells,
                    before,
                    children,
                    k as nat,
                    done,
                    (depth - 1) as nat,
                ) == clone_children(
                    src@.cells,
                    dst@,
                    children,
                    (k + 1) as nat,
                    kids@,
                    (depth - 1) as nat,
                ));
            },
        }
        k += 1;
    }
    let copy = cell.rebuilt(kids, false);
    assert(sealed_cell(copy@));
    match dst.allocate(copy) {
        None => Err(Error::OutOfMemory),
        Some(i) => {
            proof {
                lemma_pack(tag, true, i as nat);
            }
            Ok(Value::heap(tag, true, i))
        },
    }
}

/// The names and function cells of a symbol table.
#[derive(Debug)]
pub struct SymbolMapCore {
    pub symbols: Vec<SymbolCell>,
}

impl View for SymbolMapCore {
    type V = Seq<SymbolView>;

    open spec fn view(&self) -> Seq<SymbolView> {
        Seq::new(self.symbols@.len(), |i: int| self.symbols@[i]@)
    }
}

impl SymbolMapCore {
    /// Every symbol of the table has a number that fits into a value.
    pub open spec fn wf(&self) -> bool {
        self@.len() <= MAX_INDEX + 1
    }

    /// An empty table with room for `cap` symbols.
    pub fn with_capacity(cap: usize) -> (m: Self)
        ensures
            m@ == Seq::<SymbolView>::empty(),
            m.wf(),
    {
        let m = Self { symbols: Vec::with_capacity(cap) };
        assert(m@ =~= Seq::empty());
        m
    }

    /// The interned symbol called `name`, if there is one.
    pub fn get(&self, name: &str) -> (s: Option<Symbol>)
        requires
            self.wf(),
        ensures
            s == match lookup(self@, name@) {
                Some(i) => Some(Symbol::numbered(i)),
                None => None,
            },
            lookup(self@, name@) matches Some(i) ==> i < self@.len(),
    {
        let wanted = String::from_str(name);
        let mut i: usize = 0;
        while i < self.symbols.len()
            invariant
                i <= self.symbols@.len(),
                self.wf(),
                wanted@ == name@,
                find_from(self@, name@, i as nat) == lookup(self@, name@),
            decreases self.symbols@.len() - i,
        {
            if self.symbols[i].interned && self.symbols[i].name == wanted {
                return Some(Symbol::new(i as u64));
            }
            i += 1;
        }
        None
    }

    /// The symbol called `name`: the interned one if there is one, or else a
    /// new symbol, interned from now on. `None` where the table is full.
    pub fn intern(&mut self, name: &str) -> (s: Option<Symbol>)
        requires
            old(self).wf(),
        ensures
            final(self).wf(),
            final(self)@ == intern_table(old(self)@, name@),
            s == match intern_index(old(self)@, name@) {
                Some(i) => Some(Symbol::numbered(i)),
                None => None,
            },
    {
        match self.get(name) {
            Some(x) => Some(x),
            None => {
                let index = self.symbols.len();
                if index as u64 <= MAX_INDEX {
                    let cell = SymbolCell { name: String::from_str(name), func: None, interned: true };
                    self.symbols.push(cell);
                    assert(self@ =~= old(self)@.push(
                        SymbolView { name: name@, func: None, interned: true },
                    ));
                    Some(Symbol::new(index as u64))
                } else {
                    None
                }
            },
        }
    }

    /// Enters a symbol called `name` that must not be there yet.
    pub fn pre_init(&mut self, name: &str) -> (r: Result<Symbol, Error>)
        requires
            old(self).wf(),
        ensures
            final(self).wf(),
            lookup(old(self)@, name@).is_some() ==> r == Err::<Symbol, Error>(Error::AlreadyInterned)
                && final(self)@ == old(self)@,
            lookup(old(self)@, name@).is_none() ==> final(self)@ == intern_table(old(self)@, name@)
                && r == match intern_index(old(self)@, name@) {
                Some(i) => Ok::<Symbol, Error>(Symbol::numbered(i)),
                None => Err(Error::OutOfMemory),
            },
    {
        match self.get(name) {
            Some(_) => Err(Error::AlreadyInterned),
            None => match self.intern(name) {
                Some(s) => Ok(s),
                None => Err(Error::OutOfMemory),
            },
        }
    }

    /// A new symbol called `name` that `intern` and `get` never find.
    pub fn new_uninterned(&mut self, name: &str) -> (s: Option<Symbol>)
        requires
            old(self).wf(),
        ensures
            final(self).wf(),
            old(self)@.len() <= MAX_INDEX ==> s == Some(Symbol::numbered(old(self)@.len()))
                && final(self)@ == old(self)@.push(
                SymbolView { name: name@, func: None, interned: false },
            ),
            old(self)@.len() > MAX_INDEX ==> s.is_none() && final(self)@ == old(self)@,
    {
        let index = self.symbols.len();
        if index as u64 <= MAX_INDEX {
            let cell = SymbolCell { name: String::from_str(name), func: None, interned: false };
            self.symbols.push(cell);
            assert(self@ =~= old(self)@.push(
                SymbolView { name: name@, func: None, interned: false },
            ));
            Some(Symbol::new(index as u64))
        } else {
            None
        }
    }

    /// The name of the symbol, if the table has it.
    pub fn name(&self, symbol: Symbol) -> (n: Option<&String>)
        ensures
            match n {
                Some(name) => symbol.id_spec() < self@.len() && name@ == self@[symbol.id_spec() as int].name,
                None => symbol.id_spec() >= self@.len(),
            },
    {
        let id = symbol.id();
        if id < self.symbols.len() as u64 {
            Some(&self.symbols[id as usize].name)
        } else {
            None
        }
    }

    /// The function of the symbol, if it has one.
    pub fn func(&self, symbol: Symbol) -> (f: Option<Value>)
        ensures
            f == func_of(self@, symbol),
    {
        let id = symbol.id();
        if id < self.symbols.len() as u64 {
            self.symbols[id as usize].func
        } else {
            None
        }
    }

    /// Puts `func` into the function cell of the symbol; `false`, and nothing
    /// changes, where the table does not have the symbol.
    pub fn store(&mut self, symbol: Symbol, func: Option<Value>) -> (done: bool)
        ensures
            done == (symbol.id_spec() < old(self)@.len()),
            final(self)@ == with_func(old(self)@, symbol, func),
    {
        let id = symbol.id();
        if id < self.symbols.len() as u64 {
            self.symbols[id as usize].func = func;
            assert(self@ =~= with_func(old(self)@, symbol, func));
            true
        } else {
            false
        }
    }
}

/// The function of the symbol, if it has one.
pub open spec fn func_of(map: Seq<SymbolView>, symbol: Symbol) -> Option<Value> {
    if symbol.id_spec() < map.len() {
        map[symbol.id_spec() as int].func
    } else {
        None
    }
}

/// The table with `func` as the function of the symbol.
pub open spec fn with_func(map: Seq<SymbolView>, symbol: Symbol, func: Option<Value>) -> Seq<
    SymbolView,
> {
    if symbol.id_spec() < map.len() {
        map.update(
            symbol.id_spec() as int,
            SymbolView { func, ..map[symbol.id_spec() as int] },
        )
    } else {
        map
    }
}

/// The symbol table with the global block.
#[derive(Debug)]
pub struct SymbolMap {
    pub map: SymbolMapCore,
    pub block: Block,
}

/// A symbol table with its global block, as plain mathematical data.
pub struct SymbolMapView {
    pub map: Seq<SymbolView>,
    pub block: BlockView,
}

impl View for SymbolMap {
    type V = SymbolMapView;

    open spec fn view(&self) -> SymbolMapView {
        SymbolMapView { map: self.map@, block: self.block@ }
    }
}

impl SymbolMapView {
    /// The global block is well formed and sealed, and no function cell
    /// refers to a local block.
    pub open spec fn wf(self) -> bool {
        &&& self.map.len() <= MAX_INDEX + 1
        &&& self.block.wf()
        &&& sealed(self.block.cells)
        &&& forall|i: int|
            0 <= i < self.map.len() ==> ((#[trigger] self.map[i]).func matches Some(f) ==> nonlocal(f))
    }

    /// The built-in function cell of the `i`-th built-in.
    pub open spec fn initial_cell(i: int) -> CellView {
        CellView::SubrFn(SubrFn::builtin_spec(i as u16))
    }

    /// The `i`-th symbol of a new table.
    pub open spec fn initial_symbol(i: int) -> SymbolView {
        SymbolView {
            name: builtin_name_spec(i as nat),
            func: if i >= FIRST_SUBR {
                Some(Value::pack(Tag::SubrFn, true, (i - FIRST_SUBR) as nat))
            } else {
                None
            },
            interned: true,
        }
    }

    /// A new table: the symbols of the special forms and of the built-in
    /// functions, and each built-in function in the global block.
    pub open spec fn initial() -> SymbolMapView {
        SymbolMapView {
            map: Seq::new(BUILTIN_SYMBOLS as nat, |i: int| Self::initial_symbol(i)),
            block: BlockView {
                cells: Seq::new(SUBR_COUNT as nat, |i: int| Self::initial_cell(i)),
                free: Seq::empty(),
                read_only: true,
                budget: usize::MAX,
            },
        }
    }

    /// The outcome of installing `func` as the function of `symbol`, with
    /// `local` the cells that `func` may refer to: `nil` empties the function
    /// cell; any other value is copied into the global block first.
    pub open spec fn set_func(self, local: Seq<CellView>, symbol: Symbol, func: Value, depth: nat) -> (
        SymbolMapView,
        Result<(), Error>,
    ) {
        if symbol.id_spec() >= self.map.len() {
            (self, Err(Error::StaleReference(symbol.value)))
        } else if func == Value::nil_spec() {
            (SymbolMapView { map: with_func(self.map, symbol, None), ..self }, Ok(()))
        } else {
            let (block, copy) = clone_spec(local, self.block, func, depth);
            match copy {
                Err(e) => (SymbolMapView { block, ..self }, Err(e)),
                Ok(f) => (
                    SymbolMapView { map: with_func(self.map, symbol, Some(f)), block },
                    Ok(()),
                ),
            }
        }
    }
}

impl SymbolMap {
    /// A new table: the symbols of the special forms and of the built-in
    /// functions, and each built-in function in the global block.
    pub fn new() -> (m: SymbolMap)
        ensures
            m@ == SymbolMapView::initial(),
            m@.wf(),
    {
        let mut block = Block::new(true, usize::MAX);
        let mut code: u16 = 0;
        while code < SUBR_COUNT
            invariant
                code <= SUBR_COUNT,
                block@.wf(),
                block@.free.len() == 0,
                block@.read_only,
                block@.budget == usize::MAX,
                block@.cells.len() == code,
                forall|i: int| 0 <= i < code ==> block@.cells[i] == SymbolMapView::initial_cell(i),
            decreases SUBR_COUNT - code,
        {
            let index = block.allocate(Cell::SubrFn(SubrFn::builtin(code)));
            code += 1;
        }
        let mut map = SymbolMapCore::with_capacity(BUILTIN_SYMBOLS as usize);
        let mut i: u64 = 0;
        while i < BUILTIN_SYMBOLS
            invariant
                i <= BUILTIN_SYMBOLS,
                map@.len() == i,
                forall|j: int| 0 <= j < i ==> map@[j] == SymbolMapView::initial_symbol(j),
            decreases BUILTIN_SYMBOLS - i,
        {
            let func = if i >= FIRST_SUBR {
                Some(Value::heap(Tag::SubrFn, true, i - FIRST_SUBR))
            } else {
                None
            };
            map.symbols.push(SymbolCell { name: String::from_str(builtin_name(i)), func, interned: true });
            i += 1;
        }
        let m = SymbolMap { map, block };
        proof {
            assert(m@.map =~= SymbolMapView::initial().map);
            assert(m@.block.cells =~= SymbolMapView::initial().block.cells);
            assert(m@.block.free =~= Seq::empty());
            assert forall|i: int| 0 <= i < m@.map.len() implies ((#[trigger] m@.map[i]).func matches Some(
                f,
            ) ==> nonlocal(f)) by {
                if i >= FIRST_SUBR {
                    lemma_pack(Tag::SubrFn, true, (i - FIRST_SUBR) as nat);
                }
            }
            assert(sealed(m@.block.cells)) by {
                assert forall|i: int| 0 <= i < m@.block.cells.len() implies sealed_cell(
                    #[trigger] m@.block.cells[i],
                ) by {
                    assert(m@.block.cells[i].children() =~= Seq::empty());
                }
            }
        }
        m
    }

    /// Whether the table and the global block are well formed.
    pub fn well_formed(&self) -> (b: bool)
        ensures
            b == self@.wf(),
    {
        if self.map.symbols.len() as u64 > MAX_INDEX + 1 {
            return false;
        }
        if !self.block.well_formed() {
            return false;
        }
        let mut i: usize = 0;
        while i < self.block.cells.len()
            invariant
                i <= self.block.cells@.len(),
                forall|j: int| 0 <= j < i ==> sealed_cell(#[trigger] self@.block.cells[j]),
            decreases self.block.cells@.len() - i,
        {
            if !is_sealed(&self.block.cells[i]) {
                assert(!sealed_cell(self@.block.cells[i as int]));
                return false;
            }
            i += 1;
        }
        let mut k: usize = 0;
        while k < self.map.symbols.len()
            invariant
                k <= self.map.symbols@.len(),
                forall|j: int|
                    0 <= j < k ==> ((#[trigger] self@.map[j]).func matches Some(f) ==> nonlocal(f)),
            decreases self.map.symbols@.len() - k,
        {
            match self.map.symbols[k].func {
                Some(f) => {
                    if !is_nonlocal(f) {
                        assert(self@.map[k as int].func == Some(f));
                        return false;
                    }
                },
                None => {},
            }
            k += 1;
        }
        true
    }

    /// The symbol called `name`, made if need be; `None` where the table is full.
    pub fn intern(&mut self, name: &str) -> (s: Option<Symbol>)
        requires
            old(self)@.wf(),
        ensures
            final(self)@.wf(),
            final(self)@.block == old(self)@.block,
            final(self)@.map == intern_table(old(self)@.map, name@),
            s == match intern_index(old(self)@.map, name@) {
                Some(i) => Some(Symbol::numbered(i)),
                None => None,
            },
    {
        self.map.intern(name)
    }

    /// The interned symbol called `name`, if there is one.
    pub fn get(&self, name: &str) -> (s: Option<Symbol>)
        requires
            self@.wf(),
        ensures
            s == match lookup(self@.map, name@) {
                Some(i) => Some(Symbol::numbered(i)),
                None => None,
            },
    {
        self.map.get(name)
    }

    /// The block in which installed functions live.
    pub fn global_block(&self) -> (b: &Block)
        ensures
            b == &self.block,
    {
        &self.block
    }

    /// A new, empty buffer called `name` in the global block; `None` where the
    /// block is full.
    pub fn create_buffer(&mut self, name: &str) -> (v: Option<Value>)
        requires
            old(self)@.wf(),
        ensures
            final(self)@.wf(),
            final(self)@.map == old(self)@.map,
            final(self)@.block == old(self)@.block.allocate(
                CellView::Buffer { name: name@, text: Seq::empty() },
            ),
            v == match old(self)@.block.next_index() {
                Some(i) => Some(Value::pack(Tag::Buffer, true, i)),
                None => None,
            },
    {
        let buffer = LispBuffer { name: String::from_str(name), text: String::new() };
        let cell = Cell::Buffer(buffer);
        assert(cell@.children() =~= Seq::empty());
        match self.block.allocate(cell) {
            Some(i) => Some(Value::heap(Tag::Buffer, true, i)),
            None => None,
        }
    }

    /// Installs `func` as the function of `symbol`. The function is copied
    /// into the global block, where nothing can be changed, so that it
    /// outlives the local block `local` it was built in.
    pub fn set_func(&mut self, symbol: Symbol, func: Value, local: &Block, depth: u64) -> (r: Result<
        (),
        Error,
    >)
        requires
            old(self)@.wf(),
        ensures
            final(self)@.wf(),
            (final(self)@, r) == old(self)@.set_func(local@.cells, symbol, func, depth as nat),
    {
        if symbol.id() >= self.map.symbols.len() as u64 {
            return Err(Error::StaleReference(symbol.value));
        }
        if func.is_nil() {
            self.map.store(symbol, None);
            return Ok(());
        }
        match clone_in(local, &mut self.block, func, depth) {
            Err(e) => Err(e),
            Ok(f) => {
                self.map.store(symbol, Some(f));
                Ok(())
            },
        }
    }
}

} // verus!
