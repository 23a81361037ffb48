//! A small map from names to values, kept as an association list.
use vstd::prelude::*;

verus! {

/// The map that a list of bindings denotes: the first binding of a name counts.
pub open spec fn bindings<V>(s: Seq<(String, V)>) -> Map<Seq<char>, V>
    decreases s.len(),
{
    if s.len() == 0 {
        Map::empty()
    } else {
        bindings(s.drop_first()).insert(s[0].0@, s[0].1)
    }
}

/// Name `k` is first bound at place `i`; at the end of the list if nowhere.
spec fn first_at<V>(s: Seq<(String, V)>, k: Seq<char>, i: int) -> bool {
    &&& 0 <= i <= s.len()
    &&& forall|j: int| 0 <= j < i ==> #[trigger] s[j].0@ != k
    &&& i < s.len() ==> s[i].0@ == k
}

proof fn lemma_lookup<V>(s: Seq<(String, V)>, k: Seq<char>, i: int)
    requires
        first_at(s, k, i),
    ensures
        bindings(s).contains_key(k) <==> i < s.len(),
        i < s.len() ==> bindings(s)[k] == s[i].1,
    decreases s.len(),
{
    if s.len() > 0 && i > 0 {
        let t = s.drop_first();
        assert forall|j: int| 0 <= j < i - 1 implies #[trigger] t[j].0@ != k by {
            assert(s[j + 1].0@ != k);
        }
        lemma_lookup(t, k, i - 1);
        assert(s[0].0@ != k);
    }
}

proof fn lemma_rebind<V>(s: Seq<(String, V)>, i: int, b: (String, V))
    requires
        first_at(s, b.0@, i),
    ensures
        i < s.len() ==> bindings(s.update(i, b)) == bindings(s).insert(b.0@, b.1),
        i == s.len() ==> bindings(s.push(b)) == bindings(s).insert(b.0@, b.1),
    decreases s.len(),
{
    let m = bindings(s).insert(b.0@, b.1);
    if s.len() == 0 {
        assert(s.push(b).drop_first() =~= s);
    } else if i == 0 {
        assert(s.update(0, b).drop_first() =~= s.drop_first());
        assert(bindings(s.update(0, b)) =~= m);
    } else {
        let t = s.drop_first();
        assert forall|j: int| 0 <= j < i - 1 implies #[trigger] t[j].0@ != b.0@ by {
            assert(s[j + 1].0@ != b.0@);
        }
        lemma_rebind(t, i - 1, b);
        assert(s[0].0@ != b.0@);
        if i < s.len() {
            assert(s.update(i, b).drop_first() =~= t.update(i - 1, b));
            assert(bindings(s.update(i, b)) =~= m);
        } else {
            assert(s.push(b).drop_first() =~= t.push(b));
            assert(bindings(s.push(b)) =~= m);
        }
    }
}

/// A map from names to values.
#[derive(Debug)]
pub struct Table<V> {
    entries: Vec<(String, V)>,
}

impl<V> View for Table<V> {
    type V = Map<Seq<char>, V>;

    closed spec fn view(&self) -> Map<Seq<char>, V> {
        bindings(self.entries@)
    }
}

impl<V> Table<V> {
    /// The map that binds nothing.
    pub fn new() -> (r: Table<V>)
        ensures
            r@ == Map::<Seq<char>, V>::empty(),
    {
        Table { entries: Vec::new() }
    }

    fn position(&self, name: &str) -> (r: usize)
        ensures
            first_at(self.entries@, name@, r as int),
    {
        let key = name.to_owned();
        let mut i: usize = 0;
        while i < self.entries.len()
            invariant
                key@ == name@,
                i <= self.entries@.len(),
                forall|j: int| 0 <= j < i ==> #[trigger] self.entries@[j].0@ != name@,
            decreases self.entries@.len() - i,
        {
            if self.entries[i].0 == key {
                return i;
            }
            i += 1;
        }
        i
    }

    /// The value bound to `name`.
    pub fn get(&self, name: &str) -> (r: Option<&V>)
        ensures
            r == if self@.contains_key(name@) {
                Some(&self@[name@])
            } else {
                None
            },
    {
        let i: usize = self.position(name);
        proof {
            lemma_lookup(self.entries@, name@, i as int);
        }
        if i < self.entries.len() {
            Some(&self.entries[i].1)
        } else {
            None
        }
    }

    /// Binds `name` to `value`.
    pub fn insert(&mut self, name: &str, value: V)
        ensures
            final(self)@ == old(self)@.insert(name@, value),
    {
        let i: usize = self.position(name);
        let b = (name.to_owned(), value);
        proof {
            lemma_rebind(self.entries@, i as int, b);
        }
        if i < self.entries.len() {
            self.entries.set(i, b);
        } else {
            self.entries.push(b);
        }
    }

    /// The place of the value bound to `name`, which becomes `default` where
    /// nothing is bound yet.
    pub fn entry(&mut self, name: &str, default: V) -> (r: &mut V)
        ensures
            *r == if old(self)@.contains_key(name@) {
                old(self)@[name@]
            } else {
                default
            },
            final(self)@ == old(self)@.insert(name@, *final(r)),
    {
        let i: usize = self.position(name);
        let ghost before = self.entries@;
        proof {
            lemma_lookup(before, name@, i as int);
        }
        if i >= self.entries.len() {
            self.entries.push((name.to_owned(), default));
        }
        let ghost filled = self.entries@;
        let slot = &mut self.entries[i];
        proof {
            let b = (filled[i as int].0, final(slot).1);
            if i < before.len() {
                lemma_rebind(before, i as int, b);
            } else {
                lemma_rebind(before, i as int, b);
                assert(filled.update(i as int, b) =~= before.push(b));
            }
        }
        &mut slot.1
    }
}

} // verus!
