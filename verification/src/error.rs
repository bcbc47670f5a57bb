//! The errors of the runtime.
use crate::symbol::Symbol;
use crate::value::Value;
use vstd::prelude::*;
use vstd::string::StringExecFns;

verus! {

/// The kinds of object that an operation can ask for.
#[derive(Clone, Copy, Debug, PartialEq, Eq, Structural)]
pub enum Type {
    Int,
    Cons,
    Symbol,
    String,
    Func,
    List,
    Number,
}

/// What went wrong.
#[allow(inconsistent_fields)]
#[derive(Clone, Copy, Debug, PartialEq, Eq, Structural)]
pub enum Error {
    /// A form or function named `name` (a symbol, or `nil` for an anonymous
    /// function) got `actual` arguments where `expected` were called for.
    ArgError { expected: u16, actual: u16, name: Value },
    /// `actual` is not of the kind `expected`.
    TypeError { expected: Type, actual: Value },
    /// The symbol has no value.
    VoidVariable(Symbol),
    /// The symbol has no function.
    VoidFunction(Symbol),
    /// The head of a form, or the value called, is nothing that can be called.
    InvalidFunction(Value),
    /// A cons cell that may not be changed was to be changed.
    ImmutableCons,
    /// A handler of `condition-case` is malformed or names a condition other
    /// than `error` and `debug`.
    InvalidConditionHandler(Value),
    /// A closure has no captured environment.
    ClosureMissingEnvironment,
    /// A closure has no argument list.
    ClosureMissingArguments,
    /// The captured environment of a closure does not end with `t`.
    ClosureEnvironmentUnterminated,
    /// The captured environment of a closure holds something else than pairs.
    InvalidClosureEnvironmentMember(Value),
    /// More than one symbol follows `&rest`.
    MultipleRestArguments,
    /// A binding of `let` gives more than one value form.
    LetBindingArity,
    /// A binding of `let` names something else than a symbol.
    LetVariable(Value),
    /// The function cells of symbols refer to one another in a circle.
    CyclicFunctionIndirection(Symbol),
    /// `macroexpand` was given an environment.
    Unimplemented,
    /// A name was to be entered into the symbol table a second time.
    AlreadyInterned,
    /// A reference that no longer leads to a cell of its kind.
    StaleReference(Value),
    /// An error raised by Lisp code: the condition and its data.
    Signal { condition: Value, data: Value },
    /// Evaluation went deeper than the given bound.
    DepthExceeded,
    /// The heap is full.
    OutOfMemory,
}

impl Error {
    /// Whether the error ends evaluation for good: no handler catches it.
    pub open spec fn fatal(self) -> bool {
        self is DepthExceeded || self is OutOfMemory
    }

    /// Whether the error ends evaluation for good: no handler catches it.
    #[verifier::when_used_as_spec(fatal)]
    pub fn is_fatal(self) -> (b: bool)
        ensures
            b == self.fatal(),
    {
        match self {
            Error::DepthExceeded => true,
            Error::OutOfMemory => true,
            _ => false,
        }
    }

    /// The name of the error's kind.
    pub open spec fn describe_spec(self) -> Seq<char> {
        match self {
            Error::ArgError { .. } => "wrong-number-of-arguments"@,
            Error::TypeError { .. } => "wrong-type-argument"@,
            Error::VoidVariable(_) => "void-variable"@,
            Error::VoidFunction(_) => "void-function"@,
            Error::InvalidFunction(_) => "invalid-function"@,
            Error::ImmutableCons => "immutable-cons"@,
            Error::InvalidConditionHandler(_) => "invalid-condition-handler"@,
            Error::ClosureMissingEnvironment => "closure-missing-environment"@,
            Error::ClosureMissingArguments => "closure-missing-argument-list"@,
            Error::ClosureEnvironmentUnterminated => "closure-environment-unterminated"@,
            Error::InvalidClosureEnvironmentMember(_) => "invalid-closure-environment-member"@,
            Error::MultipleRestArguments => "multiple-rest-arguments"@,
            Error::LetBindingArity => "let-binding-arity"@,
            Error::LetVariable(_) => "let-variable"@,
            Error::CyclicFunctionIndirection(_) => "cyclic-function-indirection"@,
            Error::Unimplemented => "unimplemented"@,
            Error::AlreadyInterned => "already-interned"@,
            Error::StaleReference(_) => "stale-reference"@,
            Error::Signal { .. } => "error"@,
            Error::DepthExceeded => "depth-exceeded"@,
            Error::OutOfMemory => "out-of-memory"@,
        }
    }

    /// The name of the error's kind.
    pub fn describe(self) -> (s: &'static str)
        ensures
            s@ == self.describe_spec(),
    {
        match self {
            Error::ArgError { .. } => "wrong-number-of-arguments",
            Error::TypeError { .. } => "wrong-type-argument",
            Error::VoidVariable(_) => "void-variable",
            Error::VoidFunction(_) => "void-function",
            Error::InvalidFunction(_) => "invalid-function",
            Error::ImmutableCons => "immutable-cons",
            Error::InvalidConditionHandler(_) => "invalid-condition-handler",
            Error::ClosureMissingEnvironment => "closure-missing-environment",
            Error::ClosureMissingArguments => "closure-missing-argument-list",
            Error::ClosureEnvironmentUnterminated => "closure-environment-unterminated",
            Error::InvalidClosureEnvironmentMember(_) => "invalid-closure-environment-member",
            Error::MultipleRestArguments => "multiple-rest-arguments",
            Error::LetBindingArity => "let-binding-arity",
            Error::LetVariable(_) => "let-variable",
            Error::CyclicFunctionIndirection(_) => "cyclic-function-indirection",
            Error::Unimplemented => "unimplemented",
            Error::AlreadyInterned => "already-interned",
            Error::StaleReference(_) => "stale-reference",
            Error::Signal { .. } => "error",
            Error::DepthExceeded => "depth-exceeded",
            Error::OutOfMemory => "out-of-memory",
        }
    }
}

/// One frame of a backtrace: the function that was called (a symbol, or `nil`
/// for an anonymous function) and its arguments.
#[derive(Debug)]
pub struct Frame {
    pub name: Value,
    pub args: Vec<Value>,
}

/// A frame as plain mathematical data.
pub struct FrameView {
    pub name: Value,
    pub args: Seq<Value>,
}

impl View for Frame {
    type V = FrameView;

    open spec fn view(&self) -> FrameView {
        FrameView { name: self.name, args: self.args@ }
    }
}

/// An error together with the calls it has passed through, innermost first.
#[derive(Debug)]
pub struct EvalError {
    pub backtrace: Vec<Frame>,
    pub error: Error,
}

/// An error with its backtrace, as plain mathematical data.
pub struct Failure {
    pub backtrace: Seq<FrameView>,
    pub error: Error,
}

impl Failure {
    /// The failure with no backtrace yet.
    pub open spec fn of(error: Error) -> Failure {
        Failure { backtrace: Seq::empty(), error }
    }

    /// The failure after it has passed through one more call.
    pub open spec fn traced(self, name: Value, args: Seq<Value>) -> Failure {
        Failure { backtrace: self.backtrace.push(FrameView { name, args }), error: self.error }
    }
}

impl View for EvalError {
    type V = Failure;

    open spec fn view(&self) -> Failure {
        Failure {
            backtrace: Seq::new(self.backtrace@.len(), |i: int| self.backtrace@[i]@),
            error: self.error,
        }
    }
}

impl EvalError {
    /// The error with no backtrace yet.
    pub fn new_error(error: Error) -> (e: Self)
        ensures
            e@ == Failure::of(error),
    {
        let e = Self { backtrace: Vec::new(), error };
        assert(e@.backtrace =~= Seq::empty());
        e
    }

    /// The error with no backtrace yet.
    pub fn new(error: Error) -> (e: Self)
        ensures
            e@ == Failure::of(error),
    {
        Self::new_error(error)
    }

    /// The error as it leaves the call of `name` on `args`.
    pub fn with_trace(error: Error, name: Value, args: &Vec<Value>) -> (e: Self)
        ensures
            e@ == Failure::of(error).traced(name, args@),
    {
        Self::new_error(error).add_trace(name, args)
    }

    /// The error after it has passed through the call of `name` on `args`.
    pub fn add_trace(self, name: Value, args: &Vec<Value>) -> (e: Self)
        ensures
            e@ == self@.traced(name, args@),
    {
        let mut e = self;
        let frame = Frame { name, args: crate::cell::copy_values(args) };
        e.backtrace.push(frame);
        assert(e@.backtrace =~= self@.backtrace.push(FrameView { name, args: args@ }));
        e
    }
}

/// The lines one after the other, each ended by a line feed.
pub open spec fn joined(lines: Seq<Seq<char>>) -> Seq<char>
    decreases lines.len(),
{
    if lines.len() == 0 {
        Seq::empty()
    } else {
        joined(lines.drop_last()) + lines.last().push('\n')
    }
}

/// The texts of the strings.
pub open spec fn texts(lines: Seq<String>) -> Seq<Seq<char>> {
    Seq::new(lines.len(), |i: int| lines[i]@)
}

impl EvalError {
    /// The text that shows the error to the host: the name of its kind,
    /// then the frames of the backtrace as `frames` words them, each on a
    /// line of its own.
    pub fn format(&self, frames: &Vec<String>) -> (s: String)
        ensures
            s@ == self.error.describe_spec().push('\n') + joined(texts(frames@)),
    {
        let mut out = String::from_str(self.error.describe());
        out.push('\n');
        let mut i: usize = 0;
        assert(texts(frames@).take(0) =~= Seq::empty());
        assert(out@ =~= self.error.describe_spec().push('\n') + joined(texts(frames@).take(0)));
        while i < frames.len()
            invariant
                i <= frames@.len(),
                out@ == self.error.describe_spec().push('\n') + joined(texts(frames@).take(i as int)),
            decreases frames@.len() - i,
        {
            out.append(frames[i].as_str());
            out.push('\n');
            proof {
                let t = texts(frames@);
                assert(t.take(i + 1).drop_last() =~= t.take(i as int));
                assert(t.take(i + 1).last() == frames@[i as int]@);
                assert(out@ =~= self.error.describe_spec().push('\n') + joined(t.take(i + 1)));
            }
            i += 1;
        }
        assert(texts(frames@).take(i as int) =~= texts(frames@));
        out
    }
}

} // verus!
