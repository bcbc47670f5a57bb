//! The context of an evaluation: the local block, the root registry and the
//! symbol table. Every reference is resolved through it, and checked.
use crate::block::Block;
use crate::block::BlockView;
use crate::cell::copy_values;
use crate::cell::Cell;
use crate::cell::CellView;
use crate::cell::SubrFn;
use crate::env::EnvView;
use crate::env::Environment;
use crate::error::Error;
use crate::error::Type;
use crate::gc::collected;
use crate::root::root_values;
use crate::root::unrooted;
use crate::root::RootSet;
use crate::root::Rooted;
use crate::root::RootedView;
use crate::string::LispStringInner;
use crate::symbol::Symbol;
use crate::symbol_map::func_of;
use crate::symbol_map::intern_index;
use crate::symbol_map::intern_table;
use crate::symbol_map::SymbolMap;
use crate::symbol_map::SymbolMapView;
use crate::value::Tag;
use crate::value::Value;
use vstd::prelude::*;
use vstd::string::StrSliceExecFns;

verus! {

/// What a cons cell holds.
#[derive(Clone, Copy, Debug, PartialEq, Eq, Structural)]
pub struct Cons {
    pub car: Value,
    pub cdr: Value,
    pub mutable: bool,
}

/// What a value denotes, as far as a glance at its cell tells.
#[derive(Clone, Copy, Debug, PartialEq, Eq, Structural)]
pub enum Object {
    Int(i64),
    /// A floating-point number, as its bits.
    Float(u64),
    Cons(Cons),
    Symbol(Symbol),
    String,
    ByteString,
    Vector,
    HashTable,
    SubrFn(SubrFn),
    LispFn,
    Buffer,
    Nil,
    True,
    /// A reference that no longer leads to a cell of its kind.
    Stale,
}

/// The number of function cells that a chain of symbols is followed through.
pub const MAX_INDIRECTION: u64 = 256;

/// The context.
#[derive(Debug)]
pub struct Context {
    pub block: Block,
    pub roots: RootSet,
    pub symbols: SymbolMap,
}

/// A context as plain mathematical data.
pub struct CxView {
    pub block: BlockView,
    pub roots: Seq<RootedView>,
    pub symbols: SymbolMapView,
}

impl View for Context {
    type V = CxView;

    open spec fn view(&self) -> CxView {
        CxView { block: self.block@, roots: self.roots@, symbols: self.symbols@ }
    }
}

/// The function that a symbol leads to: its own, or, where that is a symbol
/// again, the one that symbol leads to, through at most `hops` cells.
pub open spec fn follow(map: Seq<crate::symbol_map::SymbolView>, symbol: Symbol, origin: Symbol, hops: nat) -> Result<
    Value,
    Error,
>
    decreases hops,
{
    match func_of(map, symbol) {
        None => Err(Error::VoidFunction(origin)),
        Some(f) => match Symbol::of_value(f) {
            None => Ok(f),
            Some(next) => if hops == 0 {
                Err(Error::CyclicFunctionIndirection(origin))
            } else {
                follow(map, next, origin, (hops - 1) as nat)
            },
        },
    }
}

impl CxView {
    /// Both blocks and the symbol table are well formed.
    pub open spec fn wf(self) -> bool {
        self.block.wf() && self.symbols.wf()
    }

    /// A new context with a block that is collected once `budget` cells are
    /// in use.
    pub open spec fn initial(budget: usize) -> CxView {
        CxView {
            block: BlockView::empty(false, budget),
            roots: Seq::empty(),
            symbols: SymbolMapView::initial(),
        }
    }

    /// The cell that a reference leads to, if it is of the reference's kind.
    pub open spec fn cell_of(self, v: Value) -> Option<CellView> {
        let b = if v.global_spec() {
            self.symbols.block
        } else {
            self.block
        };
        if v.tag_spec().is_heap() && v.index_spec() < b.cells.len() && b.cells[v.index_spec() as int].tag()
            == Some(v.tag_spec()) {
            Some(b.cells[v.index_spec() as int])
        } else {
            None
        }
    }

    /// What `v` denotes.
    pub open spec fn object(self, v: Value) -> Object {
        match v.tag_spec() {
            Tag::Int => Object::Int(v.int_spec() as i64),
            Tag::Nil => Object::Nil,
            Tag::True => Object::True,
            Tag::Symbol => Object::Symbol(Symbol { value: v }),
            _ => match self.cell_of(v) {
                Some(CellView::Cons { car, cdr, mutable }) => Object::Cons(Cons { car, cdr, mutable }),
                Some(CellView::Float(bits)) => Object::Float(bits),
                Some(CellView::String(_)) => Object::String,
                Some(CellView::ByteString(_)) => Object::ByteString,
                Some(CellView::Vector(_)) => Object::Vector,
                Some(CellView::HashTable(_)) => Object::HashTable,
                Some(CellView::SubrFn(f)) => Object::SubrFn(f),
                Some(CellView::LispFn { .. }) => Object::LispFn,
                Some(CellView::Buffer { .. }) => Object::Buffer,
                _ => Object::Stale,
            },
        }
    }

    /// The context with `v` rooted on top.
    pub open spec fn root(self, v: Value) -> CxView {
        CxView { roots: self.roots.push(RootedView::Scalar(v)), ..self }
    }

    /// The context with the registry cut back to its first `len` data.
    pub open spec fn unroot(self, len: nat) -> CxView {
        CxView { roots: unrooted(self.roots, len), ..self }
    }

    /// The outcome of putting `cell` into the local block.
    pub open spec fn add(self, cell: CellView) -> (CxView, Result<Value, Error>) {
        match (self.block.next_index(), cell.tag()) {
            (Some(i), Some(t)) => (
                CxView { block: self.block.allocate(cell), ..self },
                Ok(Value::pack(t, false, i)),
            ),
            _ => (self, Err(Error::OutOfMemory)),
        }
    }

    /// The outcome of making a cons cell that may be changed.
    pub open spec fn cons(self, car: Value, cdr: Value) -> (CxView, Result<Value, Error>) {
        self.add(CellView::Cons { car, cdr, mutable: true })
    }

    /// The outcome of changing the cons cell `v` to `cell`: refused for what
    /// is no cons cell, and for a cons cell that may not be changed.
    pub open spec fn set_cons(self, v: Value, car: Value, cdr: Value) -> (CxView, Result<(), Error>) {
        match self.object(v) {
            Object::Cons(c) => if v.global_spec() || !c.mutable || self.block.read_only {
                (self, Err(Error::ImmutableCons))
            } else {
                (
                    CxView {
                        block: self.block.replace(
                            v.index_spec() as int,
                            CellView::Cons { car, cdr, mutable: true },
                        ),
                        ..self
                    },
                    Ok(()),
                )
            },
            _ => (self, Err(Error::TypeError { expected: Type::Cons, actual: v })),
        }
    }

    /// The outcome of putting `x` into the first slot of the cons cell `v`.
    pub open spec fn set_car(self, v: Value, x: Value) -> (CxView, Result<(), Error>) {
        match self.object(v) {
            Object::Cons(c) => self.set_cons(v, x, c.cdr),
            _ => (self, Err(Error::TypeError { expected: Type::Cons, actual: v })),
        }
    }

    /// The outcome of putting `x` into the second slot of the cons cell `v`.
    pub open spec fn set_cdr(self, v: Value, x: Value) -> (CxView, Result<(), Error>) {
        match self.object(v) {
            Object::Cons(c) => self.set_cons(v, c.car, x),
            _ => (self, Err(Error::TypeError { expected: Type::Cons, actual: v })),
        }
    }

    /// The values that a collection starts from: what the registry and the
    /// environment keep reachable.
    pub open spec fn root_set(self, env: EnvView) -> Set<Value> {
        root_values(self.roots).union(env.root_set())
    }

    /// Whether a collection is due: the cells in use have reached the budget.
    pub open spec fn due(self) -> bool {
        self.block.in_use() >= self.block.budget
    }

    /// The context after a collection, which takes place where it is forced
    /// or due.
    pub open spec fn collect(self, env: EnvView, force: bool) -> CxView {
        if force || self.due() {
            CxView { block: collected(self.block, self.root_set(env)), ..self }
        } else {
            self
        }
    }

    /// Whether the symbol is a keyword: its name begins with a colon.
    pub open spec fn keyword(self, symbol: Symbol) -> bool {
        symbol.id_spec() < self.symbols.map.len() && self.symbols.map[symbol.id_spec() as int].name.len()
            > 0 && self.symbols.map[symbol.id_spec() as int].name[0] == ':'
    }

    /// The function that the symbol leads to.
    pub open spec fn follow_indirect(self, symbol: Symbol) -> Result<Value, Error> {
        follow(self.symbols.map, symbol, symbol, MAX_INDIRECTION as nat)
    }

    /// The outcome of installing `func` as the function of `symbol`.
    pub open spec fn set_func(self, symbol: Symbol, func: Value, depth: nat) -> (
        CxView,
        Result<(), Error>,
    ) {
        let (symbols, r) = self.symbols.set_func(self.block.cells, symbol, func, depth);
        (CxView { symbols, ..self }, r)
    }
}

impl Context {
    /// A new context: an empty local block that is collected once `budget`
    /// cells are in use, no roots, and the symbols every table starts with.
    pub fn new(budget: usize) -> (cx: Context)
        ensures
            cx@ == CxView::initial(budget),
            cx@.wf(),
    {
        Context { block: Block::new(false, budget), roots: RootSet::new(), symbols: SymbolMap::new() }
    }

    /// Whether both blocks and the symbol table are well formed, as every
    /// other operation asks.
    pub fn well_formed(&self) -> (b: bool)
        ensures
            b == self@.wf(),
    {
        self.block.well_formed() && self.symbols.well_formed()
    }

    /// What `v` denotes.
    pub fn get(&self, v: Value) -> (o: Object)
        ensures
            o == self@.object(v),
    {
        let tag = v.tag();
        match tag {
            Tag::Int => Object::Int(v.untag_int()),
            Tag::Nil => Object::Nil,
            Tag::True => Object::True,
            Tag::Symbol => Object::Symbol(Symbol { value: v }),
            _ => {
                let b = if v.is_global() {
                    &self.symbols.block
                } else {
                    &self.block
                };
                match b.cell(v.index()) {
                    None => Object::Stale,
                    Some(cell) => {
                        let same = match cell.tag() {
                            Some(t) => t == tag,
                            None => false,
                        };
                        if !same {
                            Object::Stale
                        } else {
                            match cell {
                                Cell::Cons { car, cdr, mutable } => Object::Cons(
                                    Cons { car: *car, cdr: *cdr, mutable: *mutable },
                                ),
                                Cell::Float(bits) => Object::Float(*bits),
                                Cell::String(_) => Object::String,
                                Cell::ByteString(_) => Object::ByteString,
                                Cell::Vector(_) => Object::Vector,
                                Cell::HashTable(_) => Object::HashTable,
                                Cell::SubrFn(f) => Object::SubrFn(*f),
                                Cell::LispFn(_) => Object::LispFn,
                                Cell::Buffer(_) => Object::Buffer,
                                Cell::Free => Object::Stale,
                            }
                        }
                    },
                }
            },
        }
    }

    /// The cell that a reference leads to, if it is of the reference's kind.
    pub fn cell(&self, v: Value) -> (c: Option<&Cell>)
        ensures
            match c {
                Some(cell) => self@.cell_of(v) == Some(cell@),
                None => self@.cell_of(v).is_none(),
            },
    {
        let tag = v.tag();
        if !tag.heap_kind() {
            return None;
        }
        let b = if v.is_global() {
            &self.symbols.block
        } else {
            &self.block
        };
        match b.cell(v.index()) {
            None => None,
            Some(cell) => {
                let same = match cell.tag() {
                    Some(t) => t == tag,
                    None => false,
                };
                if same {
                    Some(cell)
                } else {
                    None
                }
            },
        }
    }

    /// What the cons cell `v` holds.
    pub fn as_cons(&self, v: Value) -> (c: Cons)
        requires
            self@.object(v) is Cons,
        ensures
            self@.object(v) == Object::Cons(c),
    {
        match self.get(v) {
            Object::Cons(c) => c,
            _ => Cons { car: v, cdr: v, mutable: false },
        }
    }

    /// What the cons cell `v` holds, or `None` for `nil`; anything else is
    /// a type error.
    pub fn try_as_option(&self, v: Value) -> (r: Result<Option<Cons>, Error>)
        ensures
            r == match self@.object(v) {
                Object::Nil => Ok::<Option<Cons>, Error>(None),
                Object::Cons(c) => Ok(Some(c)),
                _ => Err(Error::TypeError { expected: Type::Cons, actual: v }),
            },
    {
        match self.get(v) {
            Object::Nil => Ok(None),
            Object::Cons(c) => Ok(Some(c)),
            _ => Err(Error::TypeError { expected: Type::Cons, actual: v }),
        }
    }

    /// The value itself where it still denotes something, `None` where it is
    /// a reference that has gone stale.
    pub fn rebind(&self, v: Value) -> (r: Option<Value>)
        ensures
            r == if self@.object(v) is Stale {
                None
            } else {
                Some(v)
            },
    {
        match self.get(v) {
            Object::Stale => None,
            _ => Some(v),
        }
    }

    /// The values of the rooted sequence at `slot`; none where the datum at
    /// `slot` is no sequence.
    pub fn bind_slice(&self, slot: usize) -> (items: Vec<Value>)
        ensures
            items@ == match self.roots_at(slot as int) {
                Some(RootedView::Sequence(s)) => s,
                _ => Seq::empty(),
            },
    {
        match self.roots.get(slot) {
            Some(Rooted::Sequence(items)) => copy_values(items),
            _ => Vec::new(),
        }
    }

    /// The rooted datum at `slot`.
    pub open spec fn roots_at(&self, slot: int) -> Option<RootedView> {
        if 0 <= slot < self@.roots.len() {
            Some(self@.roots[slot])
        } else {
            None
        }
    }

    /// Roots `v` on top of the registry.
    pub fn root(&mut self, v: Value)
        ensures
            final(self)@ == old(self)@.root(v),
    {
        self.roots.push(Rooted::Scalar(v));
    }

    /// The number of rooted data.
    pub fn rooted(&self) -> (n: usize)
        ensures
            n == self@.roots.len(),
    {
        self.roots.len()
    }

    /// Takes out of the registry, last first, what was rooted at place `len`
    /// or above.
    pub fn unroot(&mut self, len: usize)
        ensures
            final(self)@ == old(self)@.unroot(len as nat),
    {
        self.roots.truncate(len);
    }

    /// Puts `cell` into the local block and returns the reference to it.
    pub fn add(&mut self, cell: Cell) -> (r: Result<Value, Error>)
        requires
            old(self)@.wf(),
            !(cell@ is Free),
        ensures
            final(self)@.wf(),
            (final(self)@, r) == old(self)@.add(cell@),
    {
        let tag = match cell.tag() {
            Some(t) => t,
            None => {
                return Err(Error::OutOfMemory);
            },
        };
        match self.block.allocate(cell) {
            Some(i) => Ok(Value::heap(tag, false, i)),
            None => Err(Error::OutOfMemory),
        }
    }

    /// Makes a cons cell that may be changed.
    pub fn cons(&mut self, car: Value, cdr: Value) -> (r: Result<Value, Error>)
        requires
            old(self)@.wf(),
        ensures
            final(self)@.wf(),
            (final(self)@, r) == old(self)@.cons(car, cdr),
    {
        self.add(Cell::Cons { car, cdr, mutable: true })
    }

    /// Makes a string.
    pub fn add_string(&mut self, s: String) -> (r: Result<Value, Error>)
        requires
            old(self)@.wf(),
        ensures
            final(self)@.wf(),
            (final(self)@, r) == old(self)@.add(CellView::String(s@)),
    {
        self.add(Cell::String(LispStringInner::from_string(s)))
    }

    /// Makes a floating-point number from its bits.
    pub fn add_float(&mut self, bits: u64) -> (r: Result<Value, Error>)
        requires
            old(self)@.wf(),
        ensures
            final(self)@.wf(),
            (final(self)@, r) == old(self)@.add(CellView::Float(bits)),
    {
        self.add(Cell::Float(bits))
    }

    fn set_cons(&mut self, v: Value, car: Value, cdr: Value) -> (r: Result<(), Error>)
        requires
            old(self)@.wf(),
        ensures
            final(self)@.wf(),
            (final(self)@, r) == old(self)@.set_cons(v, car, cdr),
    {
        match self.get(v) {
            Object::Cons(c) => {
                if v.is_global() || !c.mutable || self.block.read_only {
                    Err(Error::ImmutableCons)
                } else {
                    self.block.replace(v.index() as usize, Cell::Cons { car, cdr, mutable: true });
                    Ok(())
                }
            },
            _ => Err(Error::TypeError { expected: Type::Cons, actual: v }),
        }
    }

    /// Puts `x` into the first slot of the cons cell `v`.
    pub fn set_car(&mut self, v: Value, x: Value) -> (r: Result<(), Error>)
        requires
            old(self)@.wf(),
        ensures
            final(self)@.wf(),
            (final(self)@, r) == old(self)@.set_car(v, x),
    {
        match self.get(v) {
            Object::Cons(c) => self.set_cons(v, x, c.cdr),
            _ => Err(Error::TypeError { expected: Type::Cons, actual: v }),
        }
    }

    /// Puts `x` into the second slot of the cons cell `v`.
    pub fn set_cdr(&mut self, v: Value, x: Value) -> (r: Result<(), Error>)
        requires
            old(self)@.wf(),
        ensures
            final(self)@.wf(),
            (final(self)@, r) == old(self)@.set_cdr(v, x),
    {
        match self.get(v) {
            Object::Cons(c) => self.set_cons(v, c.car, x),
            _ => Err(Error::TypeError { expected: Type::Cons, actual: v }),
        }
    }

    /// Collects the local block where that is forced or due. What the
    /// registry and `env` keep reachable stays as it is and where it is;
    /// every other cell of the local block becomes free.
    pub fn garbage_collect(&mut self, force: bool, env: &Environment)
        requires
            old(self)@.wf(),
        ensures
            final(self)@.wf(),
            final(self)@ == old(self)@.collect(env@, force),
    {
        if force || self.block.in_use() >= self.block.budget {
            let mut all: Vec<Value> = Vec::new();
            self.roots.trace(&mut all);
            env.trace(&mut all);
            proof {
                assert(Seq::<Value>::empty().to_set() =~= Set::empty());
                assert(all@.to_set() =~= self@.root_set(env@));
            }
            self.block.collect(&all);
        }
    }

    /// The symbol called `name`, made if need be; `None` where the table is
    /// full.
    pub fn intern(&mut self, name: &str) -> (s: Option<Symbol>)
        requires
            old(self)@.wf(),
        ensures
            final(self)@.wf(),
            final(self)@ == (CxView {
                symbols: SymbolMapView {
                    map: intern_table(old(self)@.symbols.map, name@),
                    ..old(self)@.symbols
                },
                ..old(self)@
            }),
            s == match intern_index(old(self)@.symbols.map, name@) {
                Some(i) => Some(Symbol::numbered(i)),
                None => None,
            },
    {
        self.symbols.intern(name)
    }

    /// Whether the symbol is a keyword: its name begins with a colon.
    pub fn is_keyword(&self, symbol: Symbol) -> (b: bool)
        ensures
            b == self@.keyword(symbol),
    {
        match self.symbols.map.name(symbol) {
            Some(name) => {
                let s = name.as_str();
                s.unicode_len() > 0 && s.get_char(0) == ':'
            },
            None => false,
        }
    }

    /// The function of the symbol, if it has one.
    pub fn func(&self, symbol: Symbol) -> (f: Option<Value>)
        ensures
            f == func_of(self@.symbols.map, symbol),
    {
        self.symbols.map.func(symbol)
    }

    /// The function that the symbol leads to: its own, or, where that is a
    /// symbol again, the one that symbol leads to.
    pub fn follow_indirect(&self, symbol: Symbol) -> (r: Result<Value, Error>)
        ensures
            r == self@.follow_indirect(symbol),
    {
        let mut current = symbol;
        let mut hops: u64 = MAX_INDIRECTION;
        loop
            invariant
                follow(self@.symbols.map, current, symbol, hops as nat) == self@.follow_indirect(symbol),
            decreases hops,
        {
            match self.symbols.map.func(current) {
                None => {
                    return Err(Error::VoidFunction(symbol));
                },
                Some(f) => match Symbol::try_from(f) {
                    None => {
                        return Ok(f);
                    },
                    Some(next) => {
                        if hops == 0 {
                            return Err(Error::CyclicFunctionIndirection(symbol));
                        }
                        current = next;
                        hops -= 1;
                    },
                },
            }
        }
    }

    /// Installs `func` as the function of `symbol`, copied into the global
    /// block; `nil` empties the function cell.
    pub fn set_func(&mut self, symbol: Symbol, func: Value, depth: u64) -> (r: Result<(), Error>)
        requires
            old(self)@.wf(),
        ensures
            final(self)@.wf(),
            (final(self)@, r) == old(self)@.set_func(symbol, func, depth as nat),
    {
        self.symbols.set_func(symbol, func, &self.block, depth)
    }
}

/// The symbol called `name` in the table of `cx`, made if need be.
pub fn intern(name: &str, cx: &mut Context) -> (s: Option<Symbol>)
    requires
        old(cx)@.wf(),
    ensures
        final(cx)@.wf(),
        final(cx)@ == (CxView {
            symbols: SymbolMapView {
                map: intern_table(old(cx)@.symbols.map, name@),
                ..old(cx)@.symbols
            },
            ..old(cx)@
        }),
        s == match intern_index(old(cx)@.symbols.map, name@) {
            Some(i) => Some(Symbol::numbered(i)),
            None => None,
        },
{
    cx.intern(name)
}

} // verus!
