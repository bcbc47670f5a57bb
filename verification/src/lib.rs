//! Runtime core of a small Lisp interpreter: tagged values, a collected heap,
//! interned symbols, rooted references and a tree-walking evaluator.
//!
//! Values are 64-bit words (`value`) that hold an immediate or refer to a
//! cell (`cell`) of a block (`block`). A context (`context`) holds the local
//! block, which is collected by mark and sweep (`gc`), the root registry
//! (`root`) and the symbol table with the global block (`symbol_map`); every
//! reference is resolved through the context and checked, so a reference
//! whose cell is gone is seen as stale and never read.
//!
//! The evaluator (`interpreter`, `eval`, `subr`) does what `semantics` says
//! it does: each of its functions is proved to give the state and the result
//! that the mathematical function of the same name gives. `laws`,
//! `unwinding`, `copying` and `soundness` prove what holds of the whole:
//! that symbols keep their identity, that `let` gives dynamic values back,
//! that the stacks unwind, that installed functions are faithful copies
//! that cannot be changed, that a collection frees exactly what cannot be
//! reached, and that evaluation never leaves a reference dangling.
pub mod block;
pub mod cell;
pub mod context;
pub mod copying;
pub mod env;
pub mod equality;
pub mod error;
pub mod eval;
pub mod gc;
pub mod interpreter;
pub mod laws;
pub mod list;
pub mod root;
pub mod search;
pub mod semantics;
pub mod soundness;
pub mod string;
pub mod sub_type;
pub mod subr;
pub mod symbol;
pub mod symbol_map;
pub mod unwinding;
pub mod value;
