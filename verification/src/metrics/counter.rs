//! Named counters.
use vstd::prelude::*;

verus! {

/// Map from names to values of `entries`, later entries winning.
pub open spec fn to_map<V>(entries: Seq<(String, V)>) -> Map<Seq<char>, V>
    decreases entries.len(),
{
    if entries.len() == 0 {
        Map::empty()
    } else {
        to_map(entries.drop_last()).insert(entries.last().0@, entries.last().1)
    }
}

/// No name occurs twice in `entries`.
pub open spec fn names_distinct<V>(entries: Seq<(String, V)>) -> bool {
    forall|i: int, j: int| 0 <= i < j < entries.len() ==> (#[trigger] entries[i]).0@ != (#[trigger] entries[j]).0@
}

/// Where `name` occurs in `entries`, if it does.
pub open spec fn position<V>(entries: Seq<(String, V)>, name: Seq<char>) -> Option<int> {
    if exists|i: int| 0 <= i < entries.len() && (#[trigger] entries[i]).0@ == name {
        Some(choose|i: int| 0 <= i < entries.len() && (#[trigger] entries[i]).0@ == name)
    } else {
        None
    }
}

pub proof fn lemma_to_map_lookup<V>(entries: Seq<(String, V)>, name: Seq<char>)
    requires
        names_distinct(entries),
    ensures
        to_map(entries).contains_key(name) <==> position(entries, name) is Some,
        position(entries, name) matches Some(i) ==> to_map(entries)[name] == entries[i].1,
    decreases entries.len(),
{
    if entries.len() > 0 {
        let d = entries.drop_last();
        assert forall|i: int, j: int| 0 <= i < j < d.len() implies (#[trigger] d[i]).0@ != (#[trigger] d[j]).0@ by {
            assert(d[i] == entries[i] && d[j] == entries[j]);
        }
        lemma_to_map_lookup(d, name);
        let last = entries.len() - 1;
        if entries.last().0@ == name {
            assert(entries[last].0@ == name);
            let i = choose|i: int| 0 <= i < entries.len() && (#[trigger] entries[i]).0@ == name;
            if i != last {
                assert(entries[i].0@ != entries[last].0@);
            }
        } else {
            if exists|i: int| 0 <= i < entries.len() && (#[trigger] entries[i]).0@ == name {
                let i = choose|i: int| 0 <= i < entries.len() && (#[trigger] entries[i]).0@ == name;
                assert(i != last);
                assert(d[i] == entries[i]);
            }
            if exists|i: int| 0 <= i < d.len() && (#[trigger] d[i]).0@ == name {
                let i = choose|i: int| 0 <= i < d.len() && (#[trigger] d[i]).0@ == name;
                assert(entries[i] == d[i]);
            }
        }
    }
}

pub proof fn lemma_to_map_update<V>(entries: Seq<(String, V)>, i: int, e: (String, V))
    requires
        names_distinct(entries),
        0 <= i < entries.len(),
        e.0@ == entries[i].0@,
    ensures
        to_map(entries.update(i, e)) == to_map(entries).insert(e.0@, e.1),
        names_distinct(entries.update(i, e)),
    decreases entries.len(),
{
    let u = entries.update(i, e);
    let last = entries.len() - 1;
    assert forall|a: int, b: int| 0 <= a < b < u.len() implies (#[trigger] u[a]).0@ != (#[trigger] u[b]).0@ by {
        assert(u[a].0@ == entries[a].0@);
        assert(u[b].0@ == entries[b].0@);
    }
    if i == last {
        assert(u.drop_last() =~= entries.drop_last());
        assert(to_map(u) =~= to_map(entries).insert(e.0@, e.1));
    } else {
        let d = entries.drop_last();
        assert forall|a: int, b: int| 0 <= a < b < d.len() implies (#[trigger] d[a]).0@ != (#[trigger] d[b]).0@ by {
            assert(d[a] == entries[a] && d[b] == entries[b]);
        }
        lemma_to_map_update(d, i, e);
        assert(u.drop_last() =~= d.update(i, e));
        assert(entries.last().0@ != e.0@) by {
            assert(entries[last].0@ != entries[i].0@);
        }
        assert(to_map(u) =~= to_map(entries).insert(e.0@, e.1));
    }
}

/// Index of the entry named `name`, if any.
pub fn find_name<V>(entries: &Vec<(String, V)>, name: &String) -> (r: Option<usize>)
    ensures
        match r {
            Some(i) => i < entries@.len() && entries@[i as int].0@ == name@,
            None => forall|i: int| 0 <= i < entries@.len() ==> (#[trigger] entries@[i]).0@ != name@,
        },
{
    let mut i: usize = 0;
    while i < entries.len()
        invariant
            i <= entries@.len(),
            forall|k: int| 0 <= k < i ==> (#[trigger] entries@[k]).0@ != name@,
        decreases entries@.len() - i,
    {
        if entries[i].0 == *name {
            return Some(i);
        }
        i = i + 1;
    }
    None
}

/// Named counters; a name never set or incremented counts zero.
pub struct Counter {
    counters: Vec<(String, usize)>,
}

impl Counter {
    /// Value of each counter that was set, incremented or reset.
    pub closed spec fn counts(&self) -> Map<Seq<char>, usize> {
        to_map(self.counters@)
    }

    /// What [`get`](Self::get) returns for `name`.
    pub open spec fn count_of(&self, name: Seq<char>) -> usize {
        if self.counts().contains_key(name) { self.counts()[name] } else { 0 }
    }

    pub closed spec fn wf(&self) -> bool {
        names_distinct(self.counters@)
    }

    /// No counter.
    pub fn new() -> (c: Self)
        ensures
            c.wf(),
            c.counts() == Map::<Seq<char>, usize>::empty(),
    {
        Counter { counters: Vec::new() }
    }

    /// Store `value` under `name`.
    fn put(&mut self, name: &str, value: usize)
        requires
            old(self).wf(),
        ensures
            final(self).wf(),
            final(self).counts() == old(self).counts().insert(name@, value),
    {
        let key = name.to_owned();
        proof {
            lemma_to_map_lookup(self.counters@, name@);
        }
        match find_name(&self.counters, &key) {
            Some(i) => {
                proof {
                    lemma_to_map_update(self.counters@, i as int, (key, value));
                }
                self.counters.set(i, (key, value));
            },
            None => {
                let ghost c0 = self.counters@;
                self.counters.push((key, value));
                proof {
                    assert(self.counters@.drop_last() =~= c0);
                    assert forall|a: int, b: int| 0 <= a < b < self.counters@.len() implies (#[trigger] self.counters@[a]).0@
                        != (#[trigger] self.counters@[b]).0@ by {
                        if b == c0.len() {
                            assert(self.counters@[a] == c0[a]);
                        } else {
                            assert(self.counters@[a] == c0[a] && self.counters@[b] == c0[b]);
                        }
                    }
                }
            },
        }
    }

    /// Add `value` to counter `name`.
    pub fn increment(&mut self, name: &str, value: usize)
        requires
            old(self).wf(),
            old(self).count_of(name@) + value <= usize::MAX,
        ensures
            final(self).wf(),
            final(self).counts() == old(self).counts().insert(name@, (old(self).count_of(name@) + value) as usize),
    {
        let current = self.get(name);
        self.put(name, current + value);
    }

    /// Set counter `name` to `value`.
    pub fn set(&mut self, name: &str, value: usize)
        requires
            old(self).wf(),
        ensures
            final(self).wf(),
            final(self).counts() == old(self).counts().insert(name@, value),
    {
        self.put(name, value);
    }

    /// Value of counter `name`; zero when it was never set.
    pub fn get(&self, name: &str) -> (v: usize)
        requires
            self.wf(),
        ensures
            v == self.count_of(name@),
    {
        let key = name.to_owned();
        proof {
            lemma_to_map_lookup(self.counters@, name@);
        }
        match find_name(&self.counters, &key) {
            Some(i) => {
                proof {
                    let p = position(self.counters@, name@);
                    assert(self.counters@[i as int].0@ == name@);
                    let j = p->Some_0;
                    if j != i as int {
                        assert(self.counters@[j].0@ == name@);
                    }
                }
                self.counters[i].1
            },
            None => 0,
        }
    }

    /// Set counter `name` to zero.
    pub fn reset(&mut self, name: &str)
        requires
            old(self).wf(),
        ensures
            final(self).wf(),
            final(self).counts() == old(self).counts().insert(name@, 0),
    {
        self.put(name, 0);
    }

    /// Forget every counter.
    pub fn reset_all(&mut self)
        requires
            old(self).wf(),
        ensures
            final(self).wf(),
            final(self).counts() == Map::<Seq<char>, usize>::empty(),
    {
        self.counters.clear();
    }

    /// Every counter with its value, each name once.
    pub fn iter(&self) -> (v: Vec<(&String, &usize)>)
        requires
            self.wf(),
        ensures
            v@.len() == self.counts().dom().len(),
            forall|i: int| 0 <= i < v@.len() ==> self.counts().contains_key((#[trigger] v@[i]).0@)
                && self.counts()[v@[i].0@] == *v@[i].1,
            forall|i: int, j: int| 0 <= i < j < v@.len() ==> (#[trigger] v@[i]).0@ != (#[trigger] v@[j]).0@,
    {
        let mut v: Vec<(&String, &usize)> = Vec::new();
        let mut i: usize = 0;
        while i < self.counters.len()
            invariant
                i <= self.counters@.len(),
                names_distinct(self.counters@),
                v@.len() == i,
                forall|k: int| 0 <= k < i ==> (#[trigger] v@[k]).0 == &self.counters@[k].0 && v@[k].1 == &self.counters@[k].1,
            decreases self.counters@.len() - i,
        {
            v.push((&self.counters[i].0, &self.counters[i].1));
            i = i + 1;
        }
        proof {
            let c = self.counters@;
            assert forall|k: int| 0 <= k < v@.len() implies self.counts().contains_key((#[trigger] v@[k]).0@)
                && self.counts()[v@[k].0@] == *v@[k].1 by {
                lemma_to_map_lookup(c, c[k].0@);
                let p = position(c, c[k].0@)->Some_0;
                if p != k {
                    assert(c[p].0@ == c[k].0@);
                }
            }
            lemma_map_dom_len(c);
        }
        v
    }
}

pub proof fn lemma_map_dom_len<V>(entries: Seq<(String, V)>)
    requires
        names_distinct(entries),
    ensures
        to_map(entries).dom().len() == entries.len(),
        to_map(entries).dom().finite(),
    decreases entries.len(),
{
    if entries.len() > 0 {
        let d = entries.drop_last();
        assert forall|i: int, j: int| 0 <= i < j < d.len() implies (#[trigger] d[i]).0@ != (#[trigger] d[j]).0@ by {
            assert(d[i] == entries[i] && d[j] == entries[j]);
        }
        lemma_map_dom_len(d);
        lemma_to_map_lookup(d, entries.last().0@);
        if position(d, entries.last().0@) is Some {
            let p = position(d, entries.last().0@)->Some_0;
            assert(entries[p].0@ == entries[entries.len() - 1].0@);
        }
    }
}


/// Incrementing a counter adds to what `get` reports for it and leaves
/// every other counter as it was.
pub proof fn law_increment_adds(before: Counter, after: Counter, name: Seq<char>, value: usize)
    requires
        before.count_of(name) + value <= usize::MAX,
        after.counts() == before.counts().insert(name, (before.count_of(name) + value) as usize),
    ensures
        after.count_of(name) == before.count_of(name) + value,
        forall|other: Seq<char>| other != name ==> #[trigger] after.count_of(other) == before.count_of(other),
{
}

} // verus!
