use rune::context::Context;
use rune::context::Object;
use rune::env::Environment;
use rune::error::Error;
use rune::interpreter::eval;
use rune::symbol::Symbol;
use rune::symbol::CLOSURE;
use rune::value::Value;

const DEPTH: u64 = 2000;

struct Reader {
    chars: Vec<char>,
    pos: usize,
}

impl Reader {
    fn new(text: &str) -> Reader {
        Reader { chars: text.chars().collect(), pos: 0 }
    }

    fn skip_space(&mut self) {
        while self.pos < self.chars.len() && self.chars[self.pos].is_whitespace() {
            self.pos += 1;
        }
    }

    fn peek(&self) -> Option<char> {
        self.chars.get(self.pos).copied()
    }

    fn wrap(&mut self, head: &str, cx: &mut Context) -> Value {
        let head = cx.intern(head).unwrap().value;
        let inner = self.read(cx);
        let tail = cx.cons(inner, Value::nil()).unwrap();
        cx.cons(head, tail).unwrap()
    }

    fn read_list(&mut self, cx: &mut Context) -> Value {
        let mut items = Vec::new();
        let mut tail = Value::nil();
        loop {
            self.skip_space();
            match self.peek() {
                None => panic!("unterminated list"),
                Some(')') => {
                    self.pos += 1;
                    break;
                }
                Some('.')
                    if self.pos + 1 < self.chars.len()
                        && self.chars[self.pos + 1].is_whitespace() =>
                {
                    self.pos += 1;
                    tail = self.read(cx);
                    self.skip_space();
                    assert_eq!(self.peek(), Some(')'));
                    self.pos += 1;
                    break;
                }
                Some(_) => items.push(self.read(cx)),
            }
        }
        for item in items.into_iter().rev() {
            tail = cx.cons(item, tail).unwrap();
        }
        tail
    }

    fn read(&mut self, cx: &mut Context) -> Value {
        self.skip_space();
        match self.peek() {
            None => panic!("nothing to read"),
            Some('(') => {
                self.pos += 1;
                self.read_list(cx)
            }
            Some('\'') => {
                self.pos += 1;
                self.wrap("quote", cx)
            }
            Some('#') if self.chars.get(self.pos + 1) == Some(&'\'') => {
                self.pos += 2;
                self.wrap("function", cx)
            }
            Some('"') => {
                self.pos += 1;
                let mut text = String::new();
                while let Some(c) = self.peek() {
                    self.pos += 1;
                    if c == '"' {
                        break;
                    }
                    text.push(c);
                }
                cx.add_string(text).unwrap()
            }
            Some(_) => {
                let start = self.pos;
                while let Some(c) = self.peek() {
                    if c.is_whitespace() || c == '(' || c == ')' || c == '"' || c == '\'' {
                        break;
                    }
                    self.pos += 1;
                }
                let token: String = self.chars[start..self.pos].iter().collect();
                if token == "nil" {
                    Value::nil()
                } else if token == "t" {
                    Value::truth()
                } else if let Ok(x) = token.parse::<i64>() {
                    Value::from_int(x)
                } else if let Ok(x) = token.parse::<f64>() {
                    cx.add_float(x.to_bits()).unwrap()
                } else {
                    cx.intern(&token).unwrap().value
                }
            }
        }
    }
}

fn read(text: &str, cx: &mut Context) -> Value {
    Reader::new(text).read(cx)
}

fn list(items: &[Value], cx: &mut Context) -> Value {
    let mut tail = Value::nil();
    for item in items.iter().rev() {
        tail = cx.cons(*item, tail).unwrap();
    }
    tail
}

fn run(test_str: &str, cx: &mut Context) -> Result<Value, Error> {
    let mut env = Environment::new();
    println!("Test String: {}", test_str);
    let obj = read(test_str, cx);
    let base = cx.rooted();
    cx.root(obj);
    let result = eval(obj, None, &mut env, cx, DEPTH);
    cx.unroot(base);
    assert_eq!(cx.rooted(), base);
    assert_eq!(env.lexical.len(), 0);
    assert_eq!(env.shadow.len(), 0);
    result.map_err(|e| e.error)
}

fn check_interpreter(test_str: &str, expect: Value, cx: &mut Context) {
    let base = cx.rooted();
    cx.root(expect);
    let compare = run(test_str, cx).unwrap();
    assert!(cx.equal(compare, expect, DEPTH), "{:?} is not {:?}", cx.get(compare), cx.get(expect));
    cx.unroot(base);
}

fn check_error(test_str: &str, cx: &mut Context) {
    assert!(run(test_str, cx).is_err());
}

fn fixnum(x: i64) -> Value {
    Value::from_int(x)
}

fn contexts() -> Vec<Context> {
    vec![Context::new(usize::MAX), Context::new(0), Context::new(7)]
}

#[test]
fn basic() {
    for mut cx in contexts() {
        let arena = &mut cx;
        check_interpreter("1", fixnum(1), arena);
        let expect = arena.add_float(1.5f64.to_bits()).unwrap();
        check_interpreter("1.5", expect, arena);
        check_interpreter("nil", Value::nil(), arena);
        check_interpreter("t", Value::truth(), arena);
        let expect = arena.add_string("foo".to_string()).unwrap();
        check_interpreter("\"foo\"", expect, arena);
        let expect = list(&[fixnum(1), fixnum(2)], arena);
        check_interpreter("'(1 2)", expect, arena);
    }
}

#[test]
fn variables() {
    for mut cx in contexts() {
        let arena = &mut cx;
        check_interpreter("(let ())", Value::nil(), arena);
        check_interpreter("(let (x) x)", Value::nil(), arena);
        check_interpreter("(let ((x 1)) x)", fixnum(1), arena);
        check_interpreter("(let ((x 1)))", Value::nil(), arena);
        check_interpreter("(let ((x 1) (y 2)) x y)", fixnum(2), arena);
        check_interpreter("(let ((x 1)) (let ((x 3)) x))", fixnum(3), arena);
        check_interpreter("(let ((x 1)) (let ((y 3)) x))", fixnum(1), arena);
        check_interpreter("(let ((x 1)) (setq x 2) x)", fixnum(2), arena);
        check_interpreter("(let* ())", Value::nil(), arena);
        check_interpreter("(let* ((x 1) (y x)) y)", fixnum(1), arena);
    }
}

#[test]
fn dyn_variables() {
    for mut cx in contexts() {
        let arena = &mut cx;
        check_interpreter("(progn (defvar foo 1) foo)", fixnum(1), arena);
        check_interpreter("(progn (defvar foo 1) (let ((foo 3)) foo))", fixnum(3), arena);
        check_interpreter("(progn (defvar foo 1) (let ((foo 3))) foo)", fixnum(1), arena);
        check_interpreter(
            "(progn (defvar foo 1) (let (bar) (let ((foo 3)) (setq bar foo)) bar))",
            fixnum(3),
            arena,
        );
    }
}

#[test]
fn conditionals() {
    for mut cx in contexts() {
        let arena = &mut cx;
        check_interpreter("(if nil 1)", Value::nil(), arena);
        check_interpreter("(if t 1)", fixnum(1), arena);
        check_interpreter("(if nil 1 2)", fixnum(2), arena);
        check_interpreter("(if t 1 2)", fixnum(1), arena);
        check_interpreter("(if nil 1 2 3)", fixnum(3), arena);
        check_interpreter("(and)", Value::truth(), arena);
        check_interpreter("(and 1)", fixnum(1), arena);
        check_interpreter("(and 1 2)", fixnum(2), arena);
        check_interpreter("(and 1 nil)", Value::nil(), arena);
        check_interpreter("(and nil 1)", Value::nil(), arena);
        check_interpreter("(or)", Value::nil(), arena);
        check_interpreter("(or nil)", Value::nil(), arena);
        check_interpreter("(or nil 1)", fixnum(1), arena);
        check_interpreter("(or 1 2)", fixnum(1), arena);
        check_interpreter("(cond)", Value::nil(), arena);
        check_interpreter("(cond nil)", Value::nil(), arena);
        check_interpreter("(cond (1))", fixnum(1), arena);
        check_interpreter("(cond (1 2))", fixnum(2), arena);
        check_interpreter("(cond (nil 1) (2 3))", fixnum(3), arena);
        check_interpreter("(cond (nil 1) (2 3) (4 5))", fixnum(3), arena);
    }
}

#[test]
fn special_forms() {
    for mut cx in contexts() {
        let arena = &mut cx;
        check_interpreter("(prog1 1 2 3)", fixnum(1), arena);
        check_interpreter("(prog2 1 2 3)", fixnum(2), arena);
        check_interpreter("(progn 1 2 3 4)", fixnum(4), arena);
        check_interpreter("(function 1)", fixnum(1), arena);
        check_interpreter("(quote 1)", fixnum(1), arena);
        check_interpreter("(if 1 2 3)", fixnum(2), arena);
        check_interpreter("(if nil 2 3)", fixnum(3), arena);
        check_interpreter("(if (and 1 nil) 2 3)", fixnum(3), arena);
    }
}

#[test]
fn test_functions() {
    for mut cx in contexts() {
        let arena = &mut cx;
        let closure = Symbol::new(CLOSURE).value;
        let env = list(&[Value::truth()], arena);
        let expect = list(&[closure, env], arena);
        check_interpreter("(function (lambda))", expect, arena);
        let x = arena.intern("x").unwrap().value;
        let y = arena.intern("y").unwrap().value;
        let env = list(&[Value::truth()], arena);
        let args = list(&[x], arena);
        let expect = list(&[closure, env, args, x], arena);
        check_interpreter("(function (lambda (x) x))", expect, arena);
        let pair = arena.cons(y, fixnum(1)).unwrap();
        let env = list(&[pair, Value::truth()], arena);
        let args = list(&[x], arena);
        let expect = list(&[closure, env, args, x], arena);
        check_interpreter("(let ((y 1)) (function (lambda (x) x)))", expect, arena);

        let expect = list(&[fixnum(5), Value::nil()], arena);
        check_interpreter(
            "(let ((x #'(lambda (x &optional y &rest z) (cons x (cons y z))))) (funcall x 5))",
            expect,
            arena,
        );
        let expect = list(&[fixnum(5), fixnum(7)], arena);
        check_interpreter(
            "(let ((x #'(lambda (x &optional y &rest z) (cons x (cons y z))))) (funcall x 5 7))",
            expect,
            arena,
        );
        let expect = list(&[fixnum(5), fixnum(7), fixnum(11)], arena);
        check_interpreter(
            "(let ((x #'(lambda (x &optional y &rest z) (cons x (cons y z))))) (funcall x 5 7 11))",
            expect,
            arena,
        );
    }
}

#[test]
fn test_call() {
    for mut cx in contexts() {
        let arena = &mut cx;
        check_interpreter("(let ((x #'(lambda (x) x))) (funcall x 5))", fixnum(5), arena);
        check_interpreter("(let ((x #'(lambda () 3))) (funcall x))", fixnum(3), arena);
        check_interpreter(
            "(progn (defvar foo 1) (let ((x #'(lambda () foo)) (foo 5)) (funcall x)))",
            fixnum(5),
            arena,
        );
        check_interpreter(
            "(progn (defalias 'int-test-call #'(lambda (x) (+ x 3)))  (int-test-call 7))",
            fixnum(10),
            arena,
        );
        // Test closures
        check_interpreter("(let* ((y 7)(x #'(lambda () y))) (funcall x))", fixnum(7), arena);
        check_interpreter(
            "(let* ((y 7)(x #'(lambda (x) (+ x y)))) (funcall x 3))",
            fixnum(10),
            arena,
        );
        // Test that closures capture their environments
        check_interpreter(
            "(progn (setq func (let ((x 3)) #'(lambda (y) (+ y x)))) (funcall func 5))",
            fixnum(8),
            arena,
        );
        // Test multiple closures
        check_interpreter("(progn (setq funcs (let ((x 3)) (cons #'(lambda (y) (+ y x)) #'(lambda (y) (- y x))))) (* (funcall (car funcs) 5) (funcall (cdr funcs) 1)))", fixnum(-16), arena);
        // Test that closures close over variables
        check_interpreter("(progn (setq funcs (let ((x 3)) (cons #'(lambda (y) (setq x y)) #'(lambda (y) (+ y x))))) (funcall (car funcs) 5) (funcall (cdr funcs) 4))", fixnum(9), arena);
        // Test that closures in global function close over values and not
        // variables
        check_interpreter("(progn (setq func (let ((x 3)) (defalias 'int-test-no-cap #'(lambda (y) (+ y x))) #'(lambda (y) (setq x y)))) (funcall func 4) (int-test-no-cap 5))", fixnum(8), arena);
    }
}

#[test]
fn test_condition_case() {
    for mut cx in contexts() {
        let arena = &mut cx;
        check_interpreter("(condition-case nil nil)", Value::nil(), arena);
        check_interpreter("(condition-case nil 1)", fixnum(1), arena);
        check_interpreter("(condition-case nil (if) (error 7))", fixnum(7), arena);
        check_interpreter("(condition-case nil (if) (error 7 9 11))", fixnum(11), arena);
        check_interpreter("(condition-case nil (if) (error . 7))", Value::nil(), arena);
        check_interpreter("(condition-case nil (if) ((debug error) 7))", fixnum(7), arena);
        check_error("(condition-case nil (if))", arena);
        check_error("(condition-case nil (if) nil)", arena);
        check_error("(condition-case nil (if) 5 (error 7))", arena);
    }
}

#[test]
fn let_leaves_x_unbound() {
    let mut cx = Context::new(0);
    let mut env = Environment::new();
    let form = read("(let ((x 1)) (let ((x 3)) x))", &mut cx);
    cx.root(form);
    let value = eval(form, None, &mut env, &mut cx, DEPTH).unwrap();
    assert_eq!(value, fixnum(3));
    let x = read("x", &mut cx);
    cx.root(x);
    let after = eval(x, None, &mut env, &mut cx, DEPTH);
    let x = Symbol::try_from(x).unwrap();
    assert_eq!(after.unwrap_err().error, Error::VoidVariable(x));
}

#[test]
fn condition_case_binds_the_error() {
    let mut cx = Context::new(0);
    let value = run("(condition-case err (if) (error (car err)))", &mut cx).unwrap();
    assert_eq!(value, Symbol::new(rune::symbol::ERROR).value);
    let value = run("(condition-case err (if) (error (cdr err)))", &mut cx).unwrap();
    let expect = cx.add_string("wrong-number-of-arguments".to_string()).unwrap();
    assert!(cx.equal(value, expect, DEPTH));
    assert_eq!(cx.get(value), Object::String);
}

fn error_of(test_str: &str, cx: &mut Context) -> Error {
    run(test_str, cx).unwrap_err()
}

fn symbol(id: u64) -> Value {
    Symbol::new(id).value
}

#[test]
fn setq_needs_pairs() {
    let cx = &mut Context::new(0);
    assert_eq!(
        error_of("(setq)", cx),
        Error::ArgError { expected: 2, actual: 0, name: symbol(rune::symbol::SETQ) }
    );
    assert_eq!(
        error_of("(setq x)", cx),
        Error::ArgError { expected: 0, actual: 1, name: symbol(rune::symbol::SETQ) }
    );
    assert_eq!(
        error_of("(setq x 1 y)", cx),
        Error::ArgError { expected: 2, actual: 3, name: symbol(rune::symbol::SETQ) }
    );
    assert_eq!(
        error_of("(setq 1 2)", cx),
        Error::TypeError { expected: rune::error::Type::Symbol, actual: fixnum(1) }
    );
    check_interpreter("(progn (setq a 1 b 2) (cons a b))", {
        cx.cons(fixnum(1), fixnum(2)).unwrap()
    }, cx);
}

#[test]
fn let_needs_a_binding_list() {
    let cx = &mut Context::new(0);
    assert_eq!(
        error_of("(let)", cx),
        Error::ArgError { expected: 1, actual: 0, name: symbol(rune::symbol::LET) }
    );
    assert_eq!(
        error_of("(let (1))", cx),
        Error::TypeError { expected: rune::error::Type::Cons, actual: fixnum(1) }
    );
    assert_eq!(error_of("(let ((x 1 2)))", cx), Error::LetBindingArity);
    assert_eq!(error_of("(let ((1 2)))", cx), Error::LetVariable(fixnum(1)));
    check_interpreter("(let ((x)) x)", Value::nil(), cx);
}

#[test]
fn condition_case_refuses_other_conditions() {
    let cx = &mut Context::new(0);
    let arith = read("arith-error", cx);
    assert_eq!(
        error_of("(condition-case nil (if) (arith-error 7))", cx),
        Error::InvalidConditionHandler(arith)
    );
    assert_eq!(
        error_of("(condition-case nil (if) ((error arith-error) 7))", cx),
        Error::InvalidConditionHandler(arith)
    );
    assert_eq!(
        error_of("(condition-case nil (if) 5 (error 7))", cx),
        Error::InvalidConditionHandler(fixnum(5))
    );
    assert_eq!(
        error_of("(condition-case nil (if))", cx),
        Error::ArgError { expected: 2, actual: 0, name: symbol(rune::symbol::IF) }
    );
    assert_eq!(
        error_of("(condition-case)", cx),
        Error::ArgError { expected: 2, actual: 0, name: symbol(rune::symbol::CONDITION_CASE) }
    );
    assert_eq!(
        error_of("(condition-case nil)", cx),
        Error::ArgError { expected: 2, actual: 1, name: symbol(rune::symbol::CONDITION_CASE) }
    );
}

#[test]
fn rest_takes_one_name() {
    let cx = &mut Context::new(0);
    assert_eq!(
        error_of("(funcall #'(lambda (x &rest y z) x) 1 2 3)", cx),
        Error::MultipleRestArguments
    );
    let expect = list(&[fixnum(2), fixnum(3)], cx);
    check_interpreter("(funcall #'(lambda (x &rest y) y) 1 2 3)", expect, cx);
    check_interpreter("(funcall #'(lambda (x &rest) x) 1)", fixnum(1), cx);
    check_interpreter("(funcall #'(lambda (x &optional y) y) 1)", Value::nil(), cx);
}

#[test]
fn calls_check_their_arguments() {
    let cx = &mut Context::new(0);
    assert_eq!(
        error_of("(funcall #'(lambda (x y) x) 1)", cx),
        Error::ArgError { expected: 2, actual: 1, name: Value::nil() }
    );
    assert_eq!(
        error_of("(funcall #'(lambda (x &optional y) x) 1 2 3)", cx),
        Error::ArgError { expected: 2, actual: 3, name: Value::nil() }
    );
    let name = read("two", cx);
    assert_eq!(
        error_of("(progn (defalias 'two #'(lambda (x y) x)) (two 1))", cx),
        Error::ArgError { expected: 2, actual: 1, name }
    );
    assert_eq!(
        error_of("(cons 1)", cx),
        Error::ArgError { expected: 2, actual: 1, name: symbol(rune::symbol::FIRST_SUBR + 4) }
    );
    assert_eq!(
        error_of("(car 1 2)", cx),
        Error::ArgError { expected: 1, actual: 2, name: symbol(rune::symbol::FIRST_SUBR + 5) }
    );
    assert_eq!(
        error_of("(funcall 1)", cx),
        Error::TypeError { expected: rune::error::Type::Func, actual: fixnum(1) }
    );
    assert_eq!(
        error_of("(funcall '(1 2))", cx),
        Error::TypeError { expected: rune::error::Type::Func, actual: fixnum(1) }
    );
    assert_eq!(error_of("(funcall '(closure))", cx), Error::ClosureMissingEnvironment);
    assert_eq!(error_of("(funcall '(closure (t)))", cx), Error::ClosureMissingArguments);
    assert_eq!(error_of("(funcall '(closure ()))", cx), Error::ClosureEnvironmentUnterminated);
    assert_eq!(
        error_of("(funcall '(closure (1 t)))", cx),
        Error::InvalidClosureEnvironmentMember(fixnum(1))
    );
    assert_eq!(
        error_of("(car 1)", cx),
        Error::TypeError { expected: rune::error::Type::List, actual: fixnum(1) }
    );
    assert_eq!(
        error_of("(+ 1 'a)", cx),
        Error::TypeError { expected: rune::error::Type::Int, actual: read("a", cx) }
    );
}

#[test]
fn names_without_a_meaning() {
    let cx = &mut Context::new(0);
    let nothing = Symbol::try_from(read("nothing", cx)).unwrap();
    assert_eq!(error_of("nothing", cx), Error::VoidVariable(nothing));
    assert_eq!(error_of("(nothing 1)", cx), Error::VoidFunction(nothing));
    assert_eq!(error_of("(1 2)", cx), Error::InvalidFunction(fixnum(1)));
    assert_eq!(error_of("(funcall 'nothing)", cx), Error::VoidFunction(nothing));
    let a = Symbol::try_from(read("a", cx)).unwrap();
    assert_eq!(
        error_of("(progn (defalias 'a 'b) (defalias 'b 'a) (a))", cx),
        Error::CyclicFunctionIndirection(a)
    );
    check_interpreter("(progn (defalias 'plus '+) (plus 1 2))", fixnum(3), cx);
}

#[test]
fn keywords_are_their_own_value() {
    let cx = &mut Context::new(0);
    let key = read(":key", cx);
    check_interpreter(":key", key, cx);
}

#[test]
fn special_forms_count_their_forms() {
    let cx = &mut Context::new(0);
    assert_eq!(
        error_of("(prog1)", cx),
        Error::ArgError { expected: 1, actual: 0, name: symbol(rune::symbol::PROG1) }
    );
    assert_eq!(
        error_of("(prog2 1)", cx),
        Error::ArgError { expected: 2, actual: 1, name: symbol(rune::symbol::PROG2) }
    );
    assert_eq!(
        error_of("(quote)", cx),
        Error::ArgError { expected: 1, actual: 0, name: symbol(rune::symbol::QUOTE) }
    );
    assert_eq!(
        error_of("(quote 1 2)", cx),
        Error::ArgError { expected: 1, actual: 2, name: symbol(rune::symbol::QUOTE) }
    );
    assert_eq!(
        error_of("(function)", cx),
        Error::ArgError { expected: 1, actual: 0, name: symbol(rune::symbol::FUNCTION) }
    );
    assert_eq!(
        error_of("(if 1)", cx),
        Error::ArgError { expected: 2, actual: 1, name: symbol(rune::symbol::IF) }
    );
    assert_eq!(
        error_of("(while)", cx),
        Error::ArgError { expected: 1, actual: 0, name: symbol(rune::symbol::WHILE) }
    );
    assert_eq!(
        error_of("(defvar)", cx),
        Error::ArgError { expected: 1, actual: 0, name: symbol(rune::symbol::DEFVAR) }
    );
    assert_eq!(
        error_of("(catch)", cx),
        Error::ArgError { expected: 1, actual: 0, name: symbol(rune::symbol::CATCH) }
    );
    check_interpreter("(interactive)", Value::nil(), cx);
}

#[test]
fn while_runs_its_body() {
    for mut cx in contexts() {
        let cx = &mut cx;
        check_interpreter(
            "(let ((i 0) (sum 0)) (while (eq (eq i 5) nil) (setq sum (+ sum i)) (setq i (+ i 1))) sum)",
            fixnum(10),
            cx,
        );
        check_interpreter("(while nil 1)", Value::nil(), cx);
    }
}

#[test]
fn catch_evaluates_tag_and_body() {
    let cx = &mut Context::new(0);
    check_interpreter("(catch 'tag 1 2)", fixnum(2), cx);
    check_interpreter("(let ((x 1)) (catch (setq x 5) x))", fixnum(5), cx);
    let nothing = Symbol::try_from(read("nothing", cx)).unwrap();
    assert_eq!(error_of("(catch nothing 1)", cx), Error::VoidVariable(nothing));
}

#[test]
fn defvar_keeps_and_defconst_replaces() {
    let cx = &mut Context::new(0);
    check_interpreter("(progn (defvar v 1) (defvar v 2) v)", fixnum(1), cx);
    check_interpreter("(progn (defvar v 1) (defconst v 2) v)", fixnum(2), cx);
    check_interpreter("(defvar v 7)", fixnum(7), cx);
    check_interpreter("(progn (defvar v) v)", Value::nil(), cx);
}

#[test]
fn let_gives_dynamic_values_back() {
    for mut cx in contexts() {
        let cx = &mut cx;
        // the body assigns to the variable, and the old value still comes back
        check_interpreter("(progn (defvar foo 1) (let ((foo 3)) (setq foo 9)) foo)", fixnum(1), cx);
        // bound twice by one let
        check_interpreter("(progn (defvar foo 1) (let ((foo 2) (foo 3)) foo))", fixnum(3), cx);
        check_interpreter("(progn (defvar foo 1) (let ((foo 2) (foo 3))) foo)", fixnum(1), cx);
        check_interpreter("(progn (defvar foo 1) (let* ((foo 2) (foo (+ foo 1))) foo))", fixnum(3), cx);
        check_interpreter("(progn (defvar foo 1) (let* ((foo 2) (foo 3))) foo)", fixnum(1), cx);
        // an error in the body
        check_interpreter(
            "(progn (defvar foo 1) (condition-case nil (let ((foo 3)) (if)) (error nil)) foo)",
            fixnum(1),
            cx,
        );
        // an error among the bindings
        check_interpreter(
            "(progn (defvar foo 1) (condition-case nil (let* ((foo 3) (y (if)))) (error nil)) foo)",
            fixnum(1),
            cx,
        );
        // lexical bindings are dropped after an error as well
        let x = Symbol::try_from(read("x", cx)).unwrap();
        assert_eq!(
            error_of("(progn (condition-case nil (let ((x 3)) (if)) (error nil)) x)", cx),
            Error::VoidVariable(x)
        );
    }
}

#[test]
fn macros_get_their_forms_unevaluated() {
    for mut cx in contexts() {
        let cx = &mut cx;
        check_interpreter(
            "(progn (defalias 'twice (cons 'macro #'(lambda (form) (cons 'progn (cons form (cons form nil)))))) (let ((n 0)) (twice (setq n (+ n 1))) n))",
            fixnum(2),
            cx,
        );
        let expect = read("(progn (f 1) (f 1))", cx);
        check_interpreter(
            "(progn (defalias 'twice (cons 'macro #'(lambda (form) (cons 'progn (cons form (cons form nil)))))) (macroexpand '(twice (f 1))))",
            expect,
            cx,
        );
        let expect = read("(f 1)", cx);
        check_interpreter("(macroexpand '(f 1))", expect, cx);
        check_interpreter("(macroexpand 5)", fixnum(5), cx);
        assert_eq!(error_of("(macroexpand '(f 1) '(1))", cx), Error::Unimplemented);
        // a macro in the shape of a closure, with `macro` in the place of `closure`
        check_interpreter(
            "(progn (defalias 'second '(macro (t) (a b) b)) (second (car 1) 7))",
            fixnum(7),
            cx,
        );
    }
}

#[test]
fn apply_spreads_its_last_argument() {
    for mut cx in contexts() {
        let cx = &mut cx;
        check_interpreter("(apply '+ 1 2 '(3 4))", fixnum(10), cx);
        check_interpreter("(apply '+ '())", fixnum(0), cx);
        check_interpreter("(apply '+)", fixnum(0), cx);
        let expect = list(&[fixnum(1), fixnum(2)], cx);
        check_interpreter("(apply #'(lambda (&rest x) x) 1 '(2))", expect, cx);
        assert_eq!(
            error_of("(apply '+ 1 2)", cx),
            Error::TypeError { expected: rune::error::Type::List, actual: fixnum(2) }
        );
        check_interpreter("(funcall '+ 1 2)", fixnum(3), cx);
        check_interpreter("(eval '(+ 1 2))", fixnum(3), cx);
        check_interpreter("(let ((x 1)) (eval '(condition-case nil x (error 5))))", fixnum(5), cx);
    }
}

#[test]
fn arithmetic_wraps_at_sixty_bits() {
    let cx = &mut Context::new(0);
    check_interpreter("(+)", fixnum(0), cx);
    check_interpreter("(*)", fixnum(1), cx);
    check_interpreter("(-)", fixnum(0), cx);
    check_interpreter("(- 5)", fixnum(-5), cx);
    check_interpreter("(- 5 2 1)", fixnum(2), cx);
    check_interpreter("(* 2 3 4)", fixnum(24), cx);
    check_interpreter("(* -3 4)", fixnum(-12), cx);
    check_interpreter("(+ 576460752303423487 1)", fixnum(-576460752303423488), cx);
    check_interpreter("(- -576460752303423488 1)", fixnum(576460752303423487), cx);
    check_interpreter("(* 576460752303423487 2)", fixnum(-2), cx);
    check_interpreter("(* 1152921504606846976 1)", fixnum(0), cx);
    check_interpreter("(* -576460752303423488 -576460752303423488)", fixnum(0), cx);
    check_interpreter("(* 1073741825 1073741825)", fixnum(2147483649), cx);
}

#[test]
fn lists_are_taken_apart() {
    let cx = &mut Context::new(0);
    check_interpreter("(car '(1 2))", fixnum(1), cx);
    let expect = list(&[fixnum(2)], cx);
    check_interpreter("(cdr '(1 2))", expect, cx);
    check_interpreter("(car nil)", Value::nil(), cx);
    check_interpreter("(cdr nil)", Value::nil(), cx);
    check_interpreter("(eq 'a 'a)", Value::truth(), cx);
    check_interpreter("(eq 'a 'b)", Value::nil(), cx);
    check_interpreter("(eq '(1) '(1))", Value::nil(), cx);
    let expect = list(&[fixnum(5), fixnum(2)], cx);
    check_interpreter("(let ((l (cons 1 (cons 2 nil)))) (setcar l 5) l)", expect, cx);
    let expect = cx.cons(fixnum(1), fixnum(7)).unwrap();
    check_interpreter("(let ((l (cons 1 (cons 2 nil)))) (setcdr l 7) l)", expect, cx);
}

#[test]
fn published_functions_cannot_be_changed() {
    for mut cx in contexts() {
        let cx = &mut cx;
        assert_eq!(
            error_of(
                "(progn (defalias 'f #'(lambda (x) (cons x (cons 1 2)))) (setcar (symbol-function-of-f) 1))",
                cx
            ),
            Error::VoidFunction(Symbol::try_from(read("symbol-function-of-f", cx)).unwrap())
        );
        let f = Symbol::try_from(read("f", cx)).unwrap();
        let func = cx.func(f).unwrap();
        assert!(func.is_global());
        // every cons cell below the function refuses to be changed
        let mut pending = vec![func];
        let mut seen = 0;
        while let Some(v) = pending.pop() {
            if let Object::Cons(c) = cx.get(v) {
                seen += 1;
                assert!(!c.mutable);
                assert_eq!(cx.set_car(v, fixnum(0)), Err(Error::ImmutableCons));
                assert_eq!(cx.set_cdr(v, fixnum(0)), Err(Error::ImmutableCons));
                pending.push(c.car);
                pending.push(c.cdr);
            }
        }
        assert!(seen >= 10);
        // a variable of a published closure cannot be assigned to
        assert_eq!(
            error_of(
                "(progn (let ((x 1)) (defalias 'g #'(lambda (y) (setq x y)))) (g 2))",
                cx
            ),
            Error::ImmutableCons
        );
    }
}

#[test]
fn depth_is_bounded() {
    let cx = &mut Context::new(usize::MAX);
    let mut env = Environment::new();
    let form = read("(progn (defalias 'f #'(lambda () (f))) (condition-case nil (f) (error 1)))", cx);
    cx.root(form);
    let r = eval(form, None, &mut env, cx, 300);
    assert_eq!(r.unwrap_err().error, Error::DepthExceeded);
    let form = read("(while t)", cx);
    let r = eval(form, None, &mut env, cx, 300);
    assert_eq!(r.unwrap_err().error, Error::DepthExceeded);
    let form = read("5", cx);
    assert_eq!(eval(form, None, &mut env, cx, 0).unwrap_err().error, Error::DepthExceeded);
    assert_eq!(eval(form, None, &mut env, cx, 1).unwrap(), fixnum(5));
}

#[test]
fn errors_carry_the_calls_they_passed() {
    let cx = &mut Context::new(0);
    let mut env = Environment::new();
    let form = read(
        "(progn (defalias 'inner #'(lambda (x) (car x))) (defalias 'outer #'(lambda (y) (inner y))) (outer 5))",
        cx,
    );
    cx.root(form);
    let e = eval(form, None, &mut env, cx, DEPTH).unwrap_err();
    assert_eq!(e.error, Error::TypeError { expected: rune::error::Type::List, actual: fixnum(5) });
    let names: Vec<Value> = e.backtrace.iter().map(|f| f.name).collect();
    let car = symbol(rune::symbol::FIRST_SUBR + 5);
    assert_eq!(names, vec![car, read("inner", cx), read("outer", cx)]);
    for frame in &e.backtrace {
        assert_eq!(frame.args, vec![fixnum(5)]);
    }
    let text = e.format(&vec!["car 5".to_string(), "inner 5".to_string()]);
    assert_eq!(text, "wrong-type-argument\ncar 5\ninner 5\n");
}

#[test]
fn evaluation_is_deterministic() {
    let text = "(let ((l nil)) (setq l (cons 1 l)) (setq l (cons 2 l)) (cons (car l) (funcall #'(lambda (&rest r) r) (setq l 3) l)))";
    let mut first = Context::new(3);
    let mut second = Context::new(3);
    let a = run(text, &mut first).unwrap();
    let b = run(text, &mut second).unwrap();
    // the same form in the same state gives the same value, bit for bit
    assert_eq!(a, b);
    let expect = list(&[fixnum(2), fixnum(3), fixnum(3)], &mut first);
    assert!(first.equal(a, expect, DEPTH));
}

#[test]
fn collections_do_not_show() {
    let texts = [
        "(let ((x #'(lambda (x &optional y &rest z) (cons x (cons y z))))) (funcall x 5 7 11))",
        "(progn (setq funcs (let ((x 3)) (cons #'(lambda (y) (setq x y)) #'(lambda (y) (+ y x))))) (funcall (car funcs) 5) (funcall (cdr funcs) 4))",
        "(let ((l nil) (i 0)) (while (eq (eq i 20) nil) (setq l (cons i l)) (setq i (+ i 1))) l)",
        "(condition-case e (car 1) (error e))",
    ];
    for text in texts {
        let mut never = Context::new(usize::MAX);
        let mut always = Context::new(0);
        let a = run(text, &mut never).unwrap();
        let b = run(text, &mut always).unwrap();
        // bring the second value over into the first context to compare
        let mut copy = Reader::new(&print(b, &always)).read(&mut never);
        assert!(never.equal(a, copy, DEPTH), "{text}");
        copy = Reader::new(&print(a, &never)).read(&mut always);
        assert!(always.equal(b, copy, DEPTH), "{text}");
        assert!(always.well_formed());
        assert!(never.well_formed());
        assert!(always.block.in_use() <= never.block.in_use());
    }
}

fn print(v: Value, cx: &Context) -> String {
    match cx.get(v) {
        Object::Int(x) => x.to_string(),
        Object::Nil => "nil".to_string(),
        Object::True => "t".to_string(),
        Object::Symbol(s) => cx.symbols.map.name(s).unwrap().clone(),
        Object::Cons(c) => format!("({} . {})", print(c.car, cx), print(c.cdr, cx)),
        Object::String => match cx.cell(v) {
            Some(rune::cell::Cell::String(s)) => format!("\"{}\"", s.as_str()),
            _ => unreachable!(),
        },
        other => panic!("cannot print {other:?}"),
    }
}

#[test]
fn recursion_under_collection() {
    for mut cx in contexts() {
        let cx = &mut cx;
        check_interpreter(
            "(progn (defalias 'fib #'(lambda (n) (cond ((eq n 0) 0) ((eq n 1) 1) (t (+ (fib (- n 1)) (fib (- n 2))))))) (fib 12))",
            fixnum(144),
            cx,
        );
        let expect = list(&[fixnum(4), fixnum(3), fixnum(2), fixnum(1)], cx);
        check_interpreter(
            "(progn (defalias 'rev #'(lambda (l acc) (if l (rev (cdr l) (cons (car l) acc)) acc))) (rev '(1 2 3 4) nil))",
            expect,
            cx,
        );
        let expect = list(&[fixnum(1), fixnum(4), fixnum(9)], cx);
        check_interpreter(
            "(let* ((sq #'(lambda (x) (* x x))) (map #'(lambda (f l self) (if l (cons (funcall f (car l)) (funcall self f (cdr l) self)) nil)))) (funcall map sq '(1 2 3) map))",
            expect,
            cx,
        );
        // a counter that lives in a closure
        check_interpreter(
            "(let* ((n 0) (next #'(lambda () (setq n (+ n 1))))) (funcall next) (funcall next) (cons (funcall next) n))",
            {
                cx.cons(fixnum(3), fixnum(3)).unwrap()
            },
            cx,
        );
        assert!(cx.well_formed());
    }
}

#[test]
fn signals_are_errors_that_handlers_take() {
    for mut cx in contexts() {
        let cx = &mut cx;
        let data = list(&[fixnum(1), fixnum(2)], cx);
        cx.root(data);
        let condition = read("my-condition", cx);
        match error_of("(signal 'my-condition '(1 2))", cx) {
            Error::Signal { condition: c, data: d } => {
                assert_eq!(c, condition);
                assert!(cx.equal(d, data, DEPTH));
            }
            other => panic!("{other:?}"),
        }
        check_interpreter("(condition-case nil (signal 'error nil) (error 5))", fixnum(5), cx);
        let expect = cx.add_string("error".to_string()).unwrap();
        check_interpreter("(condition-case e (signal 'error nil) (error (cdr e)))", expect, cx);
        assert_eq!(
            error_of("(signal 'error)", cx),
            Error::ArgError { expected: 2, actual: 1, name: symbol(rune::symbol::FIRST_SUBR + 14) }
        );
    }
}
