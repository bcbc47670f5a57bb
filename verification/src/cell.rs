//! Heap cells: what a heap reference can point to.
use crate::string::ByteStringInner;
use crate::string::LispStringInner;
use crate::value::Tag;
use crate::value::Value;
use vstd::prelude::*;

verus! {

/// A built-in function: which one it is, and how many arguments it takes.
#[derive(Clone, Copy, Debug, PartialEq, Eq, Structural)]
pub struct SubrFn {
    /// Number of the built-in.
    pub code: u16,
    /// Fewest arguments accepted.
    pub min: u16,
    /// Most arguments accepted, where `variadic` is unset.
    pub max: u16,
    /// Whether any number of further arguments is accepted.
    pub variadic: bool,
}

/// The number of the built-in `funcall`.
pub const SUBR_FUNCALL: u16 = 0;

/// The number of the built-in `apply`.
pub const SUBR_APPLY: u16 = 1;

/// The number of the built-in `eval`.
pub const SUBR_EVAL: u16 = 2;

/// The number of the built-in `macroexpand`.
pub const SUBR_MACROEXPAND: u16 = 3;

/// The number of the built-in `cons`.
pub const SUBR_CONS: u16 = 4;

/// The number of the built-in `car`.
pub const SUBR_CAR: u16 = 5;

/// The number of the built-in `cdr`.
pub const SUBR_CDR: u16 = 6;

/// The number of the built-in `setcar`.
pub const SUBR_SETCAR: u16 = 7;

/// The number of the built-in `setcdr`.
pub const SUBR_SETCDR: u16 = 8;

/// The number of the built-in `+`.
pub const SUBR_PLUS: u16 = 9;

/// The number of the built-in `-`.
pub const SUBR_MINUS: u16 = 10;

/// The number of the built-in `*`.
pub const SUBR_TIMES: u16 = 11;

/// The number of the built-in `defalias`.
pub const SUBR_DEFALIAS: u16 = 12;

/// The number of the built-in `eq`.
pub const SUBR_EQ: u16 = 13;

/// The number of the built-in `signal`.
pub const SUBR_SIGNAL: u16 = 14;

/// The number of built-in functions.
pub const SUBR_COUNT: u16 = 15;

impl SubrFn {
    /// The built-in with the given number, with the arguments it takes.
    pub open spec fn builtin_spec(code: u16) -> SubrFn {
        if code == SUBR_FUNCALL || code == SUBR_APPLY {
            SubrFn { code, min: 1, max: 1, variadic: true }
        } else if code == SUBR_EVAL || code == SUBR_MACROEXPAND {
            SubrFn { code, min: 1, max: 2, variadic: false }
        } else if code == SUBR_CAR || code == SUBR_CDR {
            SubrFn { code, min: 1, max: 1, variadic: false }
        } else if code == SUBR_PLUS || code == SUBR_MINUS || code == SUBR_TIMES {
            SubrFn { code, min: 0, max: 0, variadic: true }
        } else if code == SUBR_DEFALIAS {
            SubrFn { code, min: 2, max: 3, variadic: false }
        } else {
            SubrFn { code, min: 2, max: 2, variadic: false }
        }
    }

    /// The built-in with the given number, with the arguments it takes.
    pub fn builtin(code: u16) -> (f: SubrFn)
        ensures
            f == SubrFn::builtin_spec(code),
    {
        if code == SUBR_FUNCALL || code == SUBR_APPLY {
            SubrFn { code, min: 1, max: 1, variadic: true }
        } else if code == SUBR_EVAL || code == SUBR_MACROEXPAND {
            SubrFn { code, min: 1, max: 2, variadic: false }
        } else if code == SUBR_CAR || code == SUBR_CDR {
            SubrFn { code, min: 1, max: 1, variadic: false }
        } else if code == SUBR_PLUS || code == SUBR_MINUS || code == SUBR_TIMES {
            SubrFn { code, min: 0, max: 0, variadic: true }
        } else if code == SUBR_DEFALIAS {
            SubrFn { code, min: 2, max: 3, variadic: false }
        } else {
            SubrFn { code, min: 2, max: 2, variadic: false }
        }
    }
}

/// A compiled function: its constants and its code.
#[derive(Debug)]
pub struct LispFn {
    pub constants: Vec<Value>,
    pub op_codes: Vec<u8>,
}

/// A text buffer.
#[derive(Debug)]
pub struct LispBuffer {
    pub name: String,
    pub text: String,
}

/// One cell of a heap block.
#[derive(Debug)]
pub enum Cell {
    /// An unused cell.
    Free,
    Cons { car: Value, cdr: Value, mutable: bool },
    /// A floating-point number, kept as its bits.
    Float(u64),
    String(LispStringInner),
    ByteString(ByteStringInner),
    Vector(Vec<Value>),
    /// A table as a flat sequence: a key at each even place, its value after it.
    HashTable(Vec<Value>),
    SubrFn(SubrFn),
    LispFn(LispFn),
    Buffer(LispBuffer),
}

/// What a cell holds, as plain mathematical data.
pub enum CellView {
    Free,
    Cons { car: Value, cdr: Value, mutable: bool },
    Float(u64),
    String(Seq<char>),
    ByteString(Seq<u8>),
    Vector(Seq<Value>),
    HashTable(Seq<Value>),
    SubrFn(SubrFn),
    LispFn { constants: Seq<Value>, op_codes: Seq<u8> },
    Buffer { name: Seq<char>, text: Seq<char> },
}

impl CellView {
    /// The values that the cell refers to, in order.
    pub open spec fn children(self) -> Seq<Value> {
        match self {
            CellView::Cons { car, cdr, .. } => seq![car, cdr],
            CellView::Vector(items) => items,
            CellView::HashTable(items) => items,
            CellView::LispFn { constants, .. } => constants,
            _ => Seq::empty(),
        }
    }

    /// The cell with its children replaced, one for one; a cons cell takes
    /// `mutable` as its flag.
    pub open spec fn with_children(self, children: Seq<Value>, mutable: bool) -> CellView {
        match self {
            CellView::Cons { .. } => CellView::Cons { car: children[0], cdr: children[1], mutable },
            CellView::Vector(_) => CellView::Vector(children),
            CellView::HashTable(_) => CellView::HashTable(children),
            CellView::LispFn { op_codes, .. } => CellView::LispFn { constants: children, op_codes },
            other => other,
        }
    }

    /// The tag that a reference to this cell carries; `None` for a free cell.
    pub open spec fn tag(self) -> Option<Tag> {
        match self {
            CellView::Free => None,
            CellView::Cons { .. } => Some(Tag::Cons),
            CellView::Float(_) => Some(Tag::Float),
            CellView::String(_) => Some(Tag::String),
            CellView::ByteString(_) => Some(Tag::ByteString),
            CellView::Vector(_) => Some(Tag::Vector),
            CellView::HashTable(_) => Some(Tag::HashTable),
            CellView::SubrFn(_) => Some(Tag::SubrFn),
            CellView::LispFn { .. } => Some(Tag::LispFn),
            CellView::Buffer { .. } => Some(Tag::Buffer),
        }
    }
}

impl View for Cell {
    type V = CellView;

    open spec fn view(&self) -> CellView {
        match self {
            Cell::Free => CellView::Free,
            Cell::Cons { car, cdr, mutable } => CellView::Cons {
                car: *car,
                cdr: *cdr,
                mutable: *mutable,
            },
            Cell::Float(bits) => CellView::Float(*bits),
            Cell::String(s) => CellView::String(s@),
            Cell::ByteString(s) => CellView::ByteString(s@),
            Cell::Vector(items) => CellView::Vector(items@),
            Cell::HashTable(items) => CellView::HashTable(items@),
            Cell::SubrFn(f) => CellView::SubrFn(*f),
            Cell::LispFn(f) => CellView::LispFn { constants: f.constants@, op_codes: f.op_codes@ },
            Cell::Buffer(b) => CellView::Buffer { name: b.name@, text: b.text@ },
        }
    }
}

/// A copy of a vector of values.
pub fn copy_values(items: &Vec<Value>) -> (out: Vec<Value>)
    ensures
        out@ == items@,
{
    let mut out: Vec<Value> = Vec::new();
    let mut i: usize = 0;
    while i < items.len()
        invariant
            i <= items@.len(),
            out@ == items@.take(i as int),
        decreases items@.len() - i,
    {
        out.push(items[i]);
        assert(out@ =~= items@.take(i + 1));
        i += 1;
    }
    assert(items@.take(i as int) =~= items@);
    out
}

/// A copy of a vector of bytes.
pub fn copy_bytes(items: &Vec<u8>) -> (out: Vec<u8>)
    ensures
        out@ == items@,
{
    let mut out: Vec<u8> = Vec::new();
    let mut i: usize = 0;
    while i < items.len()
        invariant
            i <= items@.len(),
            out@ == items@.take(i as int),
        decreases items@.len() - i,
    {
        out.push(items[i]);
        assert(out@ =~= items@.take(i + 1));
        i += 1;
    }
    assert(items@.take(i as int) =~= items@);
    out
}

impl Cell {
    /// The tag that a reference to this cell carries; `None` for a free cell.
    pub fn tag(&self) -> (t: Option<Tag>)
        ensures
            t == self@.tag(),
    {
        match self {
            Cell::Free => None,
            Cell::Cons { .. } => Some(Tag::Cons),
            Cell::Float(_) => Some(Tag::Float),
            Cell::String(_) => Some(Tag::String),
            Cell::ByteString(_) => Some(Tag::ByteString),
            Cell::Vector(_) => Some(Tag::Vector),
            Cell::HashTable(_) => Some(Tag::HashTable),
            Cell::SubrFn(_) => Some(Tag::SubrFn),
            Cell::LispFn(_) => Some(Tag::LispFn),
            Cell::Buffer(_) => Some(Tag::Buffer),
        }
    }

    /// How many values the cell refers to.
    pub fn child_count(&self) -> (n: usize)
        ensures
            n == self@.children().len(),
    {
        match self {
            Cell::Cons { .. } => 2,
            Cell::Vector(items) => items.len(),
            Cell::HashTable(items) => items.len(),
            Cell::LispFn(f) => f.constants.len(),
            _ => 0,
        }
    }

    /// The `k`-th value that the cell refers to.
    pub fn child(&self, k: usize) -> (v: Value)
        requires
            k < self@.children().len(),
        ensures
            v == self@.children()[k as int],
    {
        match self {
            Cell::Cons { car, cdr, .. } => if k == 0 {
                *car
            } else {
                *cdr
            },
            Cell::Vector(items) => items[k],
            Cell::HashTable(items) => items[k],
            Cell::LispFn(f) => f.constants[k],
            _ => Value::nil(),
        }
    }

    /// A copy of the cell that refers to `children` in place of its own
    /// children; a cons cell takes `mutable` as its flag.
    pub fn rebuilt(&self, children: Vec<Value>, mutable: bool) -> (c: Cell)
        requires
            children@.len() == self@.children().len(),
        ensures
            c@ == self@.with_children(children@, mutable),
    {
        match self {
            Cell::Free => Cell::Free,
            Cell::Cons { .. } => Cell::Cons { car: children[0], cdr: children[1], mutable },
            Cell::Float(bits) => Cell::Float(*bits),
            Cell::String(s) => Cell::String(s.duplicate()),
            Cell::ByteString(s) => Cell::ByteString(s.duplicate()),
            Cell::Vector(_) => Cell::Vector(children),
            Cell::HashTable(_) => Cell::HashTable(children),
            Cell::SubrFn(f) => Cell::SubrFn(*f),
            Cell::LispFn(f) => Cell::LispFn(
                LispFn { constants: children, op_codes: copy_bytes(&f.op_codes) },
            ),
            Cell::Buffer(b) => Cell::Buffer(LispBuffer { name: b.name.clone(), text: b.text.clone() }),
        }
    }
}

} // verus!
