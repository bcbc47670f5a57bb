//! The environment of an evaluation: the values of the dynamic variables,
//! the stack of lexical bindings, and the values that `let` has shadowed.
use crate::root::push_all;
use crate::symbol::Symbol;
use crate::value::Value;
use vstd::prelude::*;

verus! {

/// The environment.
#[derive(Debug)]
pub struct Environment {
    /// The value of each dynamic variable, by the number of its symbol.
    pub vars: Vec<Option<Value>>,
    /// The lexical bindings, oldest first: cons cells of a symbol and a value.
    pub lexical: Vec<Value>,
    /// For each dynamic variable that a `let` in progress has rebound, the
    /// symbol and the value it had before, oldest first.
    pub shadow: Vec<(Symbol, Value)>,
}

/// An environment as plain mathematical data.
pub struct EnvView {
    pub vars: Map<nat, Value>,
    pub lexical: Seq<Value>,
    pub shadow: Seq<(Symbol, Value)>,
}

impl View for Environment {
    type V = EnvView;

    open spec fn view(&self) -> EnvView {
        EnvView {
            vars: Map::new(
                |id: nat| id < self.vars@.len() && self.vars@[id as int].is_some(),
                |id: nat| self.vars@[id as int].unwrap(),
            ),
            lexical: self.lexical@,
            shadow: self.shadow@,
        }
    }
}

impl EnvView {
    /// The environment with no variables and no bindings.
    pub open spec fn empty() -> EnvView {
        EnvView { vars: Map::empty(), lexical: Seq::empty(), shadow: Seq::empty() }
    }

    /// Every dynamic variable has a number that the machine can index.
    pub open spec fn indexable(self) -> bool {
        forall|id: nat| #[trigger] self.vars.contains_key(id) ==> id < usize::MAX
    }

    /// The dynamic value of the symbol, if it has one.
    pub open spec fn get_var(self, symbol: Symbol) -> Option<Value> {
        if self.vars.contains_key(symbol.id_spec()) {
            Some(self.vars[symbol.id_spec()])
        } else {
            None
        }
    }

    /// The environment with `value` as the dynamic value of the symbol. A
    /// symbol whose number is beyond what the machine can index is left out.
    pub open spec fn set_var(self, symbol: Symbol, value: Value) -> EnvView {
        if symbol.id_spec() < usize::MAX {
            EnvView { vars: self.vars.insert(symbol.id_spec(), value), ..self }
        } else {
            self
        }
    }

    /// The environment with one more lexical binding.
    pub open spec fn bind(self, binding: Value) -> EnvView {
        EnvView { lexical: self.lexical.push(binding), ..self }
    }

    /// The environment with the lexical bindings cut back to the first `len`.
    pub open spec fn unbind(self, len: nat) -> EnvView {
        if len <= self.lexical.len() {
            EnvView { lexical: self.lexical.take(len as int), ..self }
        } else {
            self
        }
    }

    /// The environment with the old value of a rebound variable saved.
    pub open spec fn save(self, symbol: Symbol, value: Value) -> EnvView {
        EnvView { shadow: self.shadow.push((symbol, value)), ..self }
    }

    /// The environment after the saved values from place `len` on have been
    /// given back to their variables, the one saved last first.
    pub open spec fn restore(self, len: nat) -> EnvView
        decreases self.shadow.len(),
    {
        if self.shadow.len() <= len {
            self
        } else {
            let (symbol, value) = self.shadow.last();
            EnvView { shadow: self.shadow.drop_last(), ..self.set_var(symbol, value) }.restore(len)
        }
    }

    /// The values that the environment keeps reachable.
    pub open spec fn root_set(self) -> Set<Value> {
        Set::new(
            |v: Value|
                (exists|id: nat| #[trigger] self.vars.contains_key(id) && self.vars[id] == v)
                    || self.lexical.contains(v) || (exists|i: int|
                    0 <= i < self.shadow.len() && (#[trigger] self.shadow[i]).1 == v),
        )
    }
}

impl Environment {
    /// An environment with no variables and no bindings.
    pub fn new() -> (env: Environment)
        ensures
            env@ == EnvView::empty(),
    {
        let env = Environment { vars: Vec::new(), lexical: Vec::new(), shadow: Vec::new() };
        assert(env@.vars =~= Map::empty());
        env
    }

    /// The number of places for dynamic values. Every dynamic variable of
    /// an environment in memory has a number below it, which the machine can
    /// index.
    pub fn capacity(&self) -> (n: usize)
        ensures
            n == self.vars@.len(),
            self@.indexable(),
    {
        self.vars.len()
    }

    /// The dynamic value of the symbol, if it has one.
    pub fn get_var(&self, symbol: Symbol) -> (v: Option<Value>)
        ensures
            v == self@.get_var(symbol),
    {
        let id = symbol.id();
        if id < self.vars.len() as u64 {
            self.vars[id as usize]
        } else {
            None
        }
    }

    /// Gives the symbol `value` as its dynamic value.
    pub fn set_var(&mut self, symbol: Symbol, value: Value)
        ensures
            final(self)@ == old(self)@.set_var(symbol, value),
    {
        let id = symbol.id();
        if id < usize::MAX as u64 {
            let index = id as usize;
            while self.vars.len() <= index
                invariant
                    self@ == old(self)@,
                    index < usize::MAX,
                decreases index + 1 - self.vars@.len(),
            {
                let ghost before = self@;
                self.vars.push(None);
                assert(self@.vars =~= before.vars);
            }
            self.vars[index] = Some(value);
            assert(self@.vars =~= old(self)@.vars.insert(symbol.id_spec(), value));
        }
    }

    /// Adds a lexical binding on top of the others.
    pub fn bind(&mut self, binding: Value)
        ensures
            final(self)@ == old(self)@.bind(binding),
    {
        self.lexical.push(binding);
        assert(self@.vars =~= old(self)@.vars);
    }

    /// Drops the lexical bindings at place `len` and above.
    pub fn unbind(&mut self, len: usize)
        ensures
            final(self)@ == old(self)@.unbind(len as nat),
    {
        self.lexical.truncate(len);
        assert(self@.vars =~= old(self)@.vars);
        assert(self@.lexical =~= old(self)@.unbind(len as nat).lexical);
    }

    /// Saves the value that a dynamic variable had before it was rebound.
    pub fn save(&mut self, symbol: Symbol, value: Value)
        ensures
            final(self)@ == old(self)@.save(symbol, value),
    {
        self.shadow.push((symbol, value));
        assert(self@.vars =~= old(self)@.vars);
    }

    /// Gives the saved values from place `len` on back to their variables,
    /// the one saved last first.
    pub fn restore(&mut self, len: usize)
        ensures
            final(self)@ == old(self)@.restore(len as nat),
    {
        while self.shadow.len() > len
            invariant
                self@.restore(len as nat) == old(self)@.restore(len as nat),
            decreases self.shadow@.len(),
        {
            let ghost before = self@;
            let (symbol, value) = self.shadow.pop().unwrap();
            let ghost popped = self@;
            assert(popped.vars =~= before.vars);
            assert(popped.shadow =~= before.shadow.drop_last());
            self.set_var(symbol, value);
            assert(self@ == EnvView {
                shadow: before.shadow.drop_last(),
                ..before.set_var(symbol, value)
            });
        }
    }

    /// Hands every value that the environment keeps reachable to the collector.
    pub fn trace(&self, out: &mut Vec<Value>)
        ensures
            final(out)@.to_set() == old(out)@.to_set().union(self@.root_set()),
    {
        let mut i: usize = 0;
        let ghost start = out@.to_set();
        while i < self.vars.len()
            invariant
                i <= self.vars@.len(),
                start == old(out)@.to_set(),
                out@.to_set() == start.union(
                    Set::new(
                        |v: Value|
                            exists|id: nat|
                                id < i && #[trigger] self@.vars.contains_key(id) && self@.vars[id]
                                    == v,
                    ),
                ),
            decreases self.vars@.len() - i,
        {
            let ghost before = out@;
            match self.vars[i] {
                Some(v) => {
                    out.push(v);
                    proof {
                        before.lemma_push_to_set_commute(v);
                        assert(self@.vars.contains_key(i as nat));
                    }
                },
                None => {},
            }
            assert(out@.to_set() =~= start.union(
                Set::new(
                    |v: Value|
                        exists|id: nat|
                            id < i + 1 && #[trigger] self@.vars.contains_key(id) && self@.vars[id] == v,
                ),
            ));
            i += 1;
        }
        let ghost mid = out@;
        push_all(out, &self.lexical);
        let mut k: usize = 0;
        let ghost mid2 = out@.to_set();
        while k < self.shadow.len()
            invariant
                k <= self.shadow@.len(),
                out@.to_set() == mid2.union(
                    Set::new(
                        |v: Value|
                            exists|i: int| 0 <= i < k && (#[trigger] self.shadow@[i]).1 == v,
                    ),
                ),
            decreases self.shadow@.len() - k,
        {
            let ghost before = out@;
            out.push(self.shadow[k].1);
            proof {
                before.lemma_push_to_set_commute(self.shadow@[k as int].1);
                assert(out@.to_set() =~= mid2.union(
                    Set::new(
                        |v: Value|
                            exists|i: int| 0 <= i < k + 1 && (#[trigger] self.shadow@[i]).1 == v,
                    ),
                ));
            }
            k += 1;
        }
        assert(out@.to_set() =~= old(out)@.to_set().union(self@.root_set()));
    }
}

} // verus!
