//! Symbols, and the symbols that every symbol table starts with.
use crate::value::Tag;
use crate::value::Value;
use crate::value::MAX_INDEX;
use vstd::prelude::*;

verus! {

/// A symbol: the tagged value that carries the symbol's number. Two symbols
/// are the same symbol exactly where they are equal.
#[derive(Clone, Copy, Debug, PartialEq, Eq, Structural, Hash)]
pub struct Symbol {
    pub value: Value,
}

impl Symbol {
    /// The number of the symbol in its table.
    pub open spec fn id_spec(self) -> nat {
        self.value.index_spec()
    }

    /// The symbol with the given number.
    pub open spec fn numbered(id: nat) -> Symbol {
        Symbol { value: Value::symbol_spec(id) }
    }

    /// The symbol that a value denotes, if it is one.
    pub open spec fn of_value(v: Value) -> Option<Symbol> {
        if v.tag_spec() == Tag::Symbol {
            Some(Symbol { value: v })
        } else {
            None
        }
    }

    /// The symbol with the given number.
    pub fn new(id: u64) -> (s: Symbol)
        requires
            id <= MAX_INDEX,
        ensures
            s == Symbol::numbered(id as nat),
            s.id_spec() == id,
            s.value.tag_spec() == Tag::Symbol,
    {
        Symbol { value: Value::symbol(id) }
    }

    /// The number of the symbol in its table.
    pub fn id(self) -> (id: u64)
        ensures
            id == self.id_spec(),
            id <= MAX_INDEX,
    {
        self.value.index()
    }

    /// The symbol that `v` denotes; `None` where `v` is no symbol.
    pub fn try_from(v: Value) -> (s: Option<Symbol>)
        ensures
            s == Symbol::of_value(v),
    {
        match v.tag() {
            Tag::Symbol => Some(Symbol { value: v }),
            _ => None,
        }
    }
}

/// The number of the symbol `quote`.
pub const QUOTE: u64 = 0;

/// The number of the symbol `let`.
pub const LET: u64 = 1;

/// The number of the symbol `let*`.
pub const LET_STAR: u64 = 2;

/// The number of the symbol `if`.
pub const IF: u64 = 3;

/// The number of the symbol `and`.
pub const AND: u64 = 4;

/// The number of the symbol `or`.
pub const OR: u64 = 5;

/// The number of the symbol `cond`.
pub const COND: u64 = 6;

/// The number of the symbol `while`.
pub const WHILE: u64 = 7;

/// The number of the symbol `progn`.
pub const PROGN: u64 = 8;

/// The number of the symbol `prog1`.
pub const PROG1: u64 = 9;

/// The number of the symbol `prog2`.
pub const PROG2: u64 = 10;

/// The number of the symbol `setq`.
pub const SETQ: u64 = 11;

/// The number of the symbol `defvar`.
pub const DEFVAR: u64 = 12;

/// The number of the symbol `defconst`.
pub const DEFCONST: u64 = 13;

/// The number of the symbol `function`.
pub const FUNCTION: u64 = 14;

/// The number of the symbol `interactive`.
pub const INTERACTIVE: u64 = 15;

/// The number of the symbol `catch`.
pub const CATCH: u64 = 16;

/// The number of the symbol `condition-case`.
pub const CONDITION_CASE: u64 = 17;

/// The number of the symbol `lambda`.
pub const LAMBDA: u64 = 18;

/// The number of the symbol `closure`.
pub const CLOSURE: u64 = 19;

/// The number of the symbol `macro`.
pub const MACRO: u64 = 20;

/// The number of the symbol `&optional`.
pub const AND_OPTIONAL: u64 = 21;

/// The number of the symbol `&rest`.
pub const AND_REST: u64 = 22;

/// The number of the symbol `error`.
pub const ERROR: u64 = 23;

/// The number of the symbol `debug`.
pub const DEBUG: u64 = 24;

/// The number of the first symbol that names a built-in function.
pub const FIRST_SUBR: u64 = 25;

/// The number of symbols that every table starts with.
pub const BUILTIN_SYMBOLS: u64 = 40;

/// The name of the `i`-th symbol that every table starts with.
pub open spec fn builtin_name_spec(i: nat) -> Seq<char> {
    if i == 0 {
        "quote"@
    } else if i == 1 {
        "let"@
    } else if i == 2 {
        "let*"@
    } else if i == 3 {
        "if"@
    } else if i == 4 {
        "and"@
    } else if i == 5 {
        "or"@
    } else if i == 6 {
        "cond"@
    } else if i == 7 {
        "while"@
    } else if i == 8 {
        "progn"@
    } else if i == 9 {
        "prog1"@
    } else if i == 10 {
        "prog2"@
    } else if i == 11 {
        "setq"@
    } else if i == 12 {
        "defvar"@
    } else if i == 13 {
        "defconst"@
    } else if i == 14 {
        "function"@
    } else if i == 15 {
        "interactive"@
    } else if i == 16 {
        "catch"@
    } else if i == 17 {
        "condition-case"@
    } else if i == 18 {
        "lambda"@
    } else if i == 19 {
        "closure"@
    } else if i == 20 {
        "macro"@
    } else if i == 21 {
        "&optional"@
    } else if i == 22 {
        "&rest"@
    } else if i == 23 {
        "error"@
    } else if i == 24 {
        "debug"@
    } else if i == 25 {
        "funcall"@
    } else if i == 26 {
        "apply"@
    } else if i == 27 {
        "eval"@
    } else if i == 28 {
        "macroexpand"@
    } else if i == 29 {
        "cons"@
    } else if i == 30 {
        "car"@
    } else if i == 31 {
        "cdr"@
    } else if i == 32 {
        "setcar"@
    } else if i == 33 {
        "setcdr"@
    } else if i == 34 {
        "+"@
    } else if i == 35 {
        "-"@
    } else if i == 36 {
        "*"@
    } else if i == 37 {
        "defalias"@
    } else if i == 38 {
        "eq"@
    } else {
        "signal"@
    }
}

/// The name of the `i`-th symbol that every table starts with.
pub fn builtin_name(i: u64) -> (name: &'static str)
    ensures
        name@ == builtin_name_spec(i as nat),
{
    if i == 0 {
        "quote"
    } else if i == 1 {
        "let"
    } else if i == 2 {
        "let*"
    } else if i == 3 {
        "if"
    } else if i == 4 {
        "and"
    } else if i == 5 {
        "or"
    } else if i == 6 {
        "cond"
    } else if i == 7 {
        "while"
    } else if i == 8 {
        "progn"
    } else if i == 9 {
        "prog1"
    } else if i == 10 {
        "prog2"
    } else if i == 11 {
        "setq"
    } else if i == 12 {
        "defvar"
    } else if i == 13 {
        "defconst"
    } else if i == 14 {
        "function"
    } else if i == 15 {
        "interactive"
    } else if i == 16 {
        "catch"
    } else if i == 17 {
        "condition-case"
    } else if i == 18 {
        "lambda"
    } else if i == 19 {
        "closure"
    } else if i == 20 {
        "macro"
    } else if i == 21 {
        "&optional"
    } else if i == 22 {
        "&rest"
    } else if i == 23 {
        "error"
    } else if i == 24 {
        "debug"
    } else if i == 25 {
        "funcall"
    } else if i == 26 {
        "apply"
    } else if i == 27 {
        "eval"
    } else if i == 28 {
        "macroexpand"
    } else if i == 29 {
        "cons"
    } else if i == 30 {
        "car"
    } else if i == 31 {
        "cdr"
    } else if i == 32 {
        "setcar"
    } else if i == 33 {
        "setcdr"
    } else if i == 34 {
        "+"
    } else if i == 35 {
        "-"
    } else if i == 36 {
        "*"
    } else if i == 37 {
        "defalias"
    } else if i == 38 {
        "eq"
    } else {
        "signal"
    }
}

} // verus!
