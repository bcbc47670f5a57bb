//! The root registry: a stack of the host's values that a collection must
//! treat as reachable. What is pushed last is popped first.
use crate::value::Value;
use vstd::prelude::*;

verus! {

/// One rooted datum, in one of the shapes the registry can trace.
#[derive(Debug)]
pub enum Rooted {
    Scalar(Value),
    Optional(Option<Value>),
    Pair(Value, Value),
    Sequence(Vec<Value>),
    Mapping { keys: Vec<Value>, values: Vec<Value> },
    Members(Vec<Value>),
}

/// A rooted datum as plain mathematical data.
pub enum RootedView {
    Scalar(Value),
    Optional(Option<Value>),
    Pair(Value, Value),
    Sequence(Seq<Value>),
    Mapping { keys: Seq<Value>, values: Seq<Value> },
    Members(Seq<Value>),
}

impl RootedView {
    /// The values that the datum keeps reachable.
    pub open spec fn values(self) -> Set<Value> {
        match self {
            RootedView::Scalar(v) => Set::empty().insert(v),
            RootedView::Optional(Some(v)) => Set::empty().insert(v),
            RootedView::Optional(None) => Set::empty(),
            RootedView::Pair(a, b) => Set::empty().insert(a).insert(b),
            RootedView::Sequence(items) => items.to_set(),
            RootedView::Mapping { keys, values } => keys.to_set().union(values.to_set()),
            RootedView::Members(items) => items.to_set(),
        }
    }
}

impl View for Rooted {
    type V = RootedView;

    open spec fn view(&self) -> RootedView {
        match self {
            Rooted::Scalar(v) => RootedView::Scalar(*v),
            Rooted::Optional(v) => RootedView::Optional(*v),
            Rooted::Pair(a, b) => RootedView::Pair(*a, *b),
            Rooted::Sequence(items) => RootedView::Sequence(items@),
            Rooted::Mapping { keys, values } => RootedView::Mapping { keys: keys@, values: values@ },
            Rooted::Members(items) => RootedView::Members(items@),
        }
    }
}

/// Appends `items` to `out`.
pub fn push_all(out: &mut Vec<Value>, items: &Vec<Value>)
    ensures
        final(out)@ == old(out)@ + items@,
        final(out)@.to_set() == old(out)@.to_set().union(items@.to_set()),
{
    let mut i: usize = 0;
    while i < items.len()
        invariant
            i <= items@.len(),
            out@ == old(out)@ + items@.take(i as int),
        decreases items@.len() - i,
    {
        out.push(items[i]);
        assert(items@.take(i + 1) =~= items@.take(i as int).push(items@[i as int]));
        assert(out@ =~= old(out)@ + items@.take(i + 1));
        i += 1;
    }
    proof {
        assert(items@.take(i as int) =~= items@);
        lemma_concat_to_set(old(out)@, items@);
    }
}

/// The members of a concatenation are the members of its two parts.
pub proof fn lemma_concat_to_set(a: Seq<Value>, b: Seq<Value>)
    ensures
        (a + b).to_set() == a.to_set().union(b.to_set()),
{
    assert forall|v: Value| (a + b).to_set().contains(v) <==> a.to_set().union(
        b.to_set(),
    ).contains(v) by {
        if (a + b).contains(v) {
            let i = choose|i: int| 0 <= i < (a + b).len() && (a + b)[i] == v;
            if i < a.len() {
                assert(a[i] == v);
            } else {
                assert(b[i - a.len()] == v);
            }
        }
        if a.contains(v) {
            let i = choose|i: int| 0 <= i < a.len() && a[i] == v;
            assert((a + b)[i] == v);
        }
        if b.contains(v) {
            let i = choose|i: int| 0 <= i < b.len() && b[i] == v;
            assert((a + b)[i + a.len()] == v);
        }
    }
    assert((a + b).to_set() =~= a.to_set().union(b.to_set()));
}

impl Rooted {
    /// Hands the values that the datum keeps reachable to the collector.
    pub fn trace(&self, out: &mut Vec<Value>)
        ensures
            final(out)@.to_set() == old(out)@.to_set().union(self@.values()),
    {
        match self {
            Rooted::Scalar(v) => {
                out.push(*v);
                proof {
                    old(out)@.lemma_push_to_set_commute(*v);
                    assert(out@.to_set() =~= old(out)@.to_set().union(self@.values()));
                }
            },
            Rooted::Optional(v) => {
                match v {
                    Some(v) => {
                        out.push(*v);
                        proof {
                            old(out)@.lemma_push_to_set_commute(*v);
                            assert(out@.to_set() =~= old(out)@.to_set().union(self@.values()));
                        }
                    },
                    None => {
                        assert(out@.to_set() =~= old(out)@.to_set().union(self@.values()));
                    },
                }
            },
            Rooted::Pair(a, b) => {
                out.push(*a);
                out.push(*b);
                proof {
                    old(out)@.lemma_push_to_set_commute(*a);
                    old(out)@.push(*a).lemma_push_to_set_commute(*b);
                    assert(out@.to_set() =~= old(out)@.to_set().union(self@.values()));
                }
            },
            Rooted::Sequence(items) => {
                push_all(out, items);
            },
            Rooted::Mapping { keys, values } => {
                push_all(out, keys);
                push_all(out, values);
                assert(out@.to_set() =~= old(out)@.to_set().union(self@.values()));
            },
            Rooted::Members(items) => {
                push_all(out, items);
            },
        }
    }
}

/// The values that the data of a registry keep reachable.
pub open spec fn root_values(roots: Seq<RootedView>) -> Set<Value>
    decreases roots.len(),
{
    if roots.len() == 0 {
        Set::empty()
    } else {
        root_values(roots.drop_last()).union(roots.last().values())
    }
}

/// A value is kept reachable by a registry exactly where one of its data
/// keeps it reachable.
pub proof fn lemma_root_values(roots: Seq<RootedView>, v: Value)
    ensures
        root_values(roots).contains(v) <==> exists|i: int|
            0 <= i < roots.len() && (#[trigger] roots[i]).values().contains(v),
    decreases roots.len(),
{
    if roots.len() > 0 {
        lemma_root_values(roots.drop_last(), v);
        if root_values(roots.drop_last()).contains(v) {
            let i = choose|i: int|
                0 <= i < roots.drop_last().len() && (#[trigger] roots.drop_last()[i]).values().contains(v);
            assert(roots[i].values().contains(v));
        }
        if exists|i: int| 0 <= i < roots.len() && (#[trigger] roots[i]).values().contains(v) {
            let i = choose|i: int| 0 <= i < roots.len() && (#[trigger] roots[i]).values().contains(v);
            if i < roots.len() - 1 {
                assert(roots.drop_last()[i].values().contains(v));
            }
        }
    }
}

/// The root registry.
#[derive(Debug)]
pub struct RootSet {
    pub roots: Vec<Rooted>,
}

impl View for RootSet {
    type V = Seq<RootedView>;

    open spec fn view(&self) -> Seq<RootedView> {
        Seq::new(self.roots@.len(), |i: int| self.roots@[i]@)
    }
}

impl RootSet {
    /// A registry with nothing rooted.
    pub fn new() -> (r: RootSet)
        ensures
            r@ == Seq::<RootedView>::empty(),
    {
        let r = RootSet { roots: Vec::new() };
        assert(r@ =~= Seq::empty());
        r
    }

    /// The number of rooted data.
    pub fn len(&self) -> (n: usize)
        ensures
            n == self@.len(),
    {
        self.roots.len()
    }

    /// Roots `datum` on top of the others and returns its place.
    pub fn push(&mut self, datum: Rooted) -> (slot: usize)
        ensures
            final(self)@ == old(self)@.push(datum@),
            slot == old(self)@.len(),
    {
        let slot = self.roots.len();
        self.roots.push(datum);
        assert(self@ =~= old(self)@.push(datum@));
        slot
    }

    /// Takes the datum rooted last out of the registry.
    pub fn pop(&mut self) -> (datum: Option<Rooted>)
        ensures
            old(self)@.len() > 0 ==> final(self)@ == old(self)@.drop_last() && datum.is_some()
                && datum.unwrap()@ == old(self)@.last(),
            old(self)@.len() == 0 ==> final(self)@ == old(self)@ && datum.is_none(),
    {
        let datum = self.roots.pop();
        assert(self@ =~= if old(self)@.len() > 0 {
            old(self)@.drop_last()
        } else {
            old(self)@
        });
        datum
    }

    /// Takes out, last first, whatever was rooted at place `len` or above.
    pub fn truncate(&mut self, len: usize)
        ensures
            final(self)@ == unrooted(old(self)@, len as nat),
    {
        self.roots.truncate(len);
        assert(self@ =~= unrooted(old(self)@, len as nat));
    }

    /// The datum at `slot`.
    pub fn get(&self, slot: usize) -> (datum: Option<&Rooted>)
        ensures
            slot < self@.len() ==> datum.is_some() && datum.unwrap()@ == self@[slot as int],
            slot >= self@.len() ==> datum.is_none(),
    {
        if slot < self.roots.len() {
            Some(&self.roots[slot])
        } else {
            None
        }
    }

    /// Puts `datum` in the place of the datum at `slot`; `false`, and nothing
    /// changes, where there is no such place.
    pub fn set(&mut self, slot: usize, datum: Rooted) -> (done: bool)
        ensures
            done == (slot < old(self)@.len()),
            done ==> final(self)@ == old(self)@.update(slot as int, datum@),
            !done ==> final(self)@ == old(self)@,
    {
        if slot < self.roots.len() {
            self.roots[slot] = datum;
            assert(self@ =~= old(self)@.update(slot as int, datum@));
            true
        } else {
            false
        }
    }

    /// Appends `v` to the rooted sequence at `slot`; `false`, and nothing
    /// changes, where the datum at `slot` is no sequence.
    pub fn push_to(&mut self, slot: usize, v: Value) -> (done: bool)
        ensures
            done == (slot < old(self)@.len() && old(self)@[slot as int] is Sequence),
            done ==> final(self)@ == old(self)@.update(
                slot as int,
                RootedView::Sequence(old(self)@[slot as int]->Sequence_0.push(v)),
            ),
            !done ==> final(self)@ == old(self)@,
    {
        if slot >= self.roots.len() {
            return false;
        }
        match &mut self.roots[slot] {
            Rooted::Sequence(items) => {
                items.push(v);
            },
            _ => {
                return false;
            },
        }
        assert(self@ =~= old(self)@.update(
            slot as int,
            RootedView::Sequence(old(self)@[slot as int]->Sequence_0.push(v)),
        ));
        true
    }

    /// Puts `value` under `key` into the rooted mapping at `slot`, in place
    /// of the value that `key` had, if it had one; `false`, and nothing
    /// changes, where the datum at `slot` is no mapping.
    pub fn insert(&mut self, slot: usize, key: Value, value: Value) -> (done: bool)
        ensures
            done == (slot < old(self)@.len() && old(self)@[slot as int] is Mapping),
            done ==> final(self)@ == old(self)@.update(
                slot as int,
                inserted(
                    old(self)@[slot as int]->keys,
                    old(self)@[slot as int]->values,
                    key,
                    value,
                ),
            ),
            !done ==> final(self)@ == old(self)@,
    {
        if slot >= self.roots.len() {
            return false;
        }
        match &mut self.roots[slot] {
            Rooted::Mapping { keys, values } => {
                let mut i: usize = 0;
                let mut found = false;
                while i < keys.len() && !found
                    invariant
                        i <= keys@.len(),
                        found ==> i < keys@.len() && keys@[i as int] == key && i < values@.len(),
                        find_key(keys@, values@.len(), key, 0) == if found {
                            Some(i as nat)
                        } else {
                            find_key(keys@, values@.len(), key, i as nat)
                        },
                    decreases keys@.len() - i + if found { 0int } else { 1int },
                {
                    if keys[i] == key && i < values.len() {
                        found = true;
                    } else {
                        i += 1;
                    }
                }
                if found {
                    values[i] = value;
                } else {
                    keys.push(key);
                    values.push(value);
                }
            },
            _ => {
                return false;
            },
        }
        assert(self@ =~= old(self)@.update(
            slot as int,
            inserted(old(self)@[slot as int]->keys, old(self)@[slot as int]->values, key, value),
        ));
        true
    }

    /// Adds `v` to the rooted set at `slot` and tells whether it was new;
    /// `false`, and nothing changes, where `v` was a member or the datum at
    /// `slot` is no set.
    pub fn add_member(&mut self, slot: usize, v: Value) -> (added: bool)
        ensures
            added == (slot < old(self)@.len() && old(self)@[slot as int] is Members && !old(
                self,
            )@[slot as int]->Members_0.contains(v)),
            added ==> final(self)@ == old(self)@.update(
                slot as int,
                RootedView::Members(old(self)@[slot as int]->Members_0.push(v)),
            ),
            !added ==> final(self)@ == old(self)@,
    {
        if slot >= self.roots.len() {
            return false;
        }
        let present = match &self.roots[slot] {
            Rooted::Members(items) => has(items, v),
            _ => {
                return false;
            },
        };
        if present {
            return false;
        }
        match &mut self.roots[slot] {
            Rooted::Members(items) => {
                items.push(v);
            },
            _ => {},
        }
        assert(self@ =~= old(self)@.update(
            slot as int,
            RootedView::Members(old(self)@[slot as int]->Members_0.push(v)),
        ));
        true
    }

    /// Hands every value that the registry keeps reachable to the collector.
    pub fn trace(&self, out: &mut Vec<Value>)
        ensures
            final(out)@.to_set() == old(out)@.to_set().union(root_values(self@)),
    {
        let mut i: usize = 0;
        assert(out@.to_set() =~= old(out)@.to_set().union(root_values(self@.take(0))));
        while i < self.roots.len()
            invariant
                i <= self.roots@.len(),
                out@.to_set() == old(out)@.to_set().union(root_values(self@.take(i as int))),
            decreases self.roots@.len() - i,
        {
            self.roots[i].trace(out);
            proof {
                assert(self@.take(i + 1).drop_last() =~= self@.take(i as int));
                assert(self@.take(i + 1).last() == self.roots@[i as int]@);
                assert(out@.to_set() =~= old(out)@.to_set().union(
                    root_values(self@.take(i + 1)),
                ));
            }
            i += 1;
        }
        assert(self@.take(i as int) =~= self@);
    }
}

/// Whether `items` holds `v`.
pub fn has(items: &Vec<Value>, v: Value) -> (b: bool)
    ensures
        b == items@.contains(v),
{
    let mut i: usize = 0;
    while i < items.len()
        invariant
            i <= items@.len(),
            forall|j: int| 0 <= j < i ==> items@[j] != v,
        decreases items@.len() - i,
    {
        if items[i] == v {
            return true;
        }
        i += 1;
    }
    false
}

/// The first place at or after `from`, and before `limit`, at which `keys`
/// holds `key`.
pub open spec fn find_key(keys: Seq<Value>, limit: nat, key: Value, from: nat) -> Option<nat>
    decreases keys.len() - from,
{
    if from >= keys.len() {
        None
    } else if keys[from as int] == key && from < limit {
        Some(from)
    } else {
        find_key(keys, limit, key, from + 1)
    }
}

/// The mapping with `value` under `key`: in place of the value that `key`
/// had, or else as a new entry at the end.
pub open spec fn inserted(keys: Seq<Value>, values: Seq<Value>, key: Value, value: Value) -> RootedView {
    match find_key(keys, values.len(), key, 0) {
        Some(i) => RootedView::Mapping { keys, values: values.update(i as int, value) },
        None => RootedView::Mapping { keys: keys.push(key), values: values.push(value) },
    }
}

/// The registry cut back to its first `len` data.
pub open spec fn unrooted(roots: Seq<RootedView>, len: nat) -> Seq<RootedView> {
    if len <= roots.len() {
        roots.take(len as int)
    } else {
        roots
    }
}

} // verus!
