//! Row handles and the builder that collects an entity's components.
use vstd::prelude::*;
use crate::ecs::ids::{is_sorted_set_of, sorted_unique, strictly_sorted};
use crate::lite::archetype::{Archetype, ArchetypeId};
use crate::lite::component::ComponentId;

verus! {

/// Compact entity handle: an id, the archetype it lives in and its row
/// there.
#[derive(Copy, Clone, Debug, PartialEq, Eq, Hash, Structural)]
pub struct Entity {
    pub id: u64,
    pub archetype: ArchetypeId,
    pub index: usize,
}

/// Component ids of builder entries, in entry order.
pub open spec fn entry_ids(es: Seq<(ComponentId, Seq<u8>)>) -> Seq<ComponentId> {
    es.map_values(|e: (ComponentId, Seq<u8>)| e.0)
}

/// Position of the last entry of component `id` in `es`, or `-1`.
pub open spec fn entry_index(es: Seq<(ComponentId, Seq<u8>)>, id: ComponentId) -> int
    decreases es.len(),
{
    if es.len() == 0 {
        -1
    } else if es.last().0 == id {
        es.len() - 1
    } else {
        entry_index(es.drop_last(), id)
    }
}

/// Bytes recorded for component `id` in `es`.
pub open spec fn entry_bytes(es: Seq<(ComponentId, Seq<u8>)>, id: ComponentId) -> Seq<u8> {
    es[entry_index(es, id)].1
}

/// `es` after recording `bytes` for `id`: the entry of `id` replaced in
/// place, or a new entry at the end.
pub open spec fn entries_with(es: Seq<(ComponentId, Seq<u8>)>, id: ComponentId, bytes: Seq<u8>) -> Seq<(ComponentId, Seq<u8>)> {
    let k = entry_index(es, id);
    if k >= 0 {
        es.update(k, (id, bytes))
    } else {
        es.push((id, bytes))
    }
}

/// With no id listed twice, the entry of `id` is the one at `c`; with no
/// entry of `id`, the index is `-1`.
pub proof fn lemma_entry_index(es: Seq<(ComponentId, Seq<u8>)>, id: ComponentId, c: int)
    requires
        entry_ids(es).no_duplicates(),
    ensures
        0 <= c < es.len() && es[c].0 == id ==> entry_index(es, id) == c,
        (forall|j: int| 0 <= j < es.len() ==> (#[trigger] es[j]).0 != id) ==> entry_index(es, id) == -1,
    decreases es.len(),
{
    if es.len() > 0 {
        let d = es.drop_last();
        assert(entry_ids(d) =~= entry_ids(es).drop_last());
        assert(entry_ids(d).no_duplicates()) by {
            assert forall|i: int, j: int| 0 <= i < j < entry_ids(d).len() implies entry_ids(d)[i] != entry_ids(d)[j] by {
                assert(entry_ids(d)[i] == entry_ids(es)[i] && entry_ids(d)[j] == entry_ids(es)[j]);
            }
        }
        lemma_entry_index(d, id, c);
        if 0 <= c < es.len() && es[c].0 == id && c < es.len() - 1 && es.last().0 == id {
            assert(entry_ids(es)[c] == entry_ids(es)[es.len() - 1]);
        }
        if 0 <= c < es.len() - 1 {
            assert(d[c] == es[c]);
        }
        if forall|j: int| 0 <= j < es.len() ==> (#[trigger] es[j]).0 != id {
            assert(es[es.len() - 1].0 != id);
            assert forall|j: int| 0 <= j < d.len() implies (#[trigger] d[j]).0 != id by {
                assert(d[j] == es[j]);
            }
        }
    }
}

/// Slot `k` holds the entry of component `id`.
fn slot_has(slots: &Vec<Option<(ComponentId, Vec<u8>)>>, k: usize, id: ComponentId) -> (b: bool)
    requires
        k < slots@.len(),
    ensures
        b == (slots@[k as int] is Some && slots@[k as int]->Some_0.0 == id),
{
    match &slots[k] {
        Some(e) => e.0 == id,
        None => false,
    }
}

/// Collects components as raw bytes, one entry per component id in the
/// order they were first added, before the entity is spawned.
pub struct EntityBuilder {
    comps: Vec<(ComponentId, Vec<u8>)>,
}

impl EntityBuilder {
    /// The entries: component id and bytes, in the order ids were first
    /// added.
    pub closed spec fn entries(&self) -> Seq<(ComponentId, Seq<u8>)> {
        self.comps@.map_values(|e: (ComponentId, Vec<u8>)| (e.0, e.1@))
    }

    /// No component id is listed twice.
    pub open spec fn wf(&self) -> bool {
        entry_ids(self.entries()).no_duplicates()
    }

    pub fn new() -> (b: Self)
        ensures
            b.wf(),
            b.entries() == Seq::<(ComponentId, Seq<u8>)>::empty(),
    {
        let b = EntityBuilder { comps: Vec::new() };
        assert(b.entries() =~= Seq::<(ComponentId, Seq<u8>)>::empty());
        b
    }

    /// Record the raw `bytes` of component `id`, replacing earlier bytes of
    /// that id. The bytes must be `expected_size` long.
    pub fn with_raw(self, id: ComponentId, bytes: Vec<u8>, expected_size: usize) -> (b: Self)
        requires
            self.wf(),
            bytes@.len() == expected_size,
        ensures
            b.wf(),
            b.entries() == entries_with(self.entries(), id, bytes@),
    {
        let ghost es = self.entries();
        let mut me = self;
        let mut k: usize = 0;
        while k < me.comps.len()
            invariant
                k <= me.comps@.len(),
                me.entries() == es,
                es == self.entries(),
                entry_ids(es).no_duplicates(),
                forall|j: int| 0 <= j < k ==> (#[trigger] es[j]).0 != id,
            decreases me.comps@.len() - k,
        {
            if me.comps[k].0 == id {
                proof {
                    assert(es[k as int].0 == id);
                    lemma_entry_index(es, id, k as int);
                }
                me.comps.set(k, (id, bytes));
                proof {
                    assert(me.entries() =~= es.update(k as int, (id, bytes@)));
                    assert(entry_ids(me.entries()) =~= entry_ids(es));
                }
                return me;
            }
            k = k + 1;
        }
        proof {
            lemma_entry_index(es, id, 0);
        }
        me.comps.push((id, bytes));
        proof {
            assert(me.entries() =~= es.push((id, bytes@)));
            assert(entry_ids(me.entries()) =~= entry_ids(es).push(id));
            assert forall|i: int, j: int| 0 <= i < j < entry_ids(me.entries()).len()
                implies entry_ids(me.entries())[i] != entry_ids(me.entries())[j] by {
                if j == es.len() {
                    assert(es[i].0 != id);
                }
            }
        }
        me
    }

    /// Component ids of the entries, in entry order.
    fn ids(&self) -> (v: Vec<ComponentId>)
        ensures
            v@ == entry_ids(self.entries()),
    {
        let mut v: Vec<ComponentId> = Vec::new();
        let mut k: usize = 0;
        while k < self.comps.len()
            invariant
                k <= self.comps@.len(),
                v@ == entry_ids(self.entries()).take(k as int),
            decreases self.comps@.len() - k,
        {
            v.push(self.comps[k].0);
            k = k + 1;
            assert(v@ =~= entry_ids(self.entries()).take(k as int));
        }
        assert(entry_ids(self.entries()).take(k as int) =~= entry_ids(self.entries()));
        v
    }

    /// Component id and byte count of each entry, in entry order.
    pub fn entry_lens(&self) -> (v: Vec<(ComponentId, usize)>)
        ensures
            v@.len() == self.entries().len(),
            forall|j: int| 0 <= j < v@.len() ==> (#[trigger] v@[j]).0 == self.entries()[j].0 && v@[j].1 == self.entries()[j].1.len(),
    {
        let mut v: Vec<(ComponentId, usize)> = Vec::new();
        let mut k: usize = 0;
        while k < self.comps.len()
            invariant
                k <= self.comps@.len(),
                v@.len() == k,
                forall|j: int| 0 <= j < k ==> (#[trigger] v@[j]).0 == self.entries()[j].0 && v@[j].1 == self.entries()[j].1.len(),
            decreases self.comps@.len() - k,
        {
            v.push((self.comps[k].0, self.comps[k].1.len()));
            k = k + 1;
        }
        v
    }

    /// The archetype of the builder's components.
    pub fn archetype(&self) -> (a: Archetype)
        ensures
            a.wf(),
            is_sorted_set_of(a.components@, entry_ids(self.entries())),
    {
        Archetype::from_components(self.ids())
    }

    /// The entries as `(id, bytes)` pairs in ascending id order.
    pub fn into_components(self) -> (out: Vec<(ComponentId, Vec<u8>)>)
        requires
            self.wf(),
        ensures
            is_sorted_set_of(out@.map_values(|e: (ComponentId, Vec<u8>)| e.0), entry_ids(self.entries())),
            forall|i: int| 0 <= i < out@.len() ==> (#[trigger] out@[i]).1@ == entry_bytes(self.entries(), out@[i].0),
    {
        let ghost es = self.entries();
        let ids = self.ids();
        let sorted = sorted_unique(ids.as_slice());
        let n = self.comps.len();
        let mut slots: Vec<Option<(ComponentId, Vec<u8>)>> = Vec::new();
        let mut comps = self.comps;
        while comps.len() > 0
            invariant
                comps@.len() + slots@.len() == n,
                n == es.len(),
                forall|k: int| 0 <= k < comps@.len() ==> (comps@[k].0, comps@[k].1@) == #[trigger] es[k],
                forall|k: int| 0 <= k < slots@.len() ==> (#[trigger] slots@[k]) is Some
                    && (slots@[k]->Some_0.0, slots@[k]->Some_0.1@) == es[n - 1 - k],
            decreases comps@.len(),
        {
            let e = comps.pop().unwrap();
            slots.push(Some(e));
        }
        let mut out: Vec<(ComponentId, Vec<u8>)> = Vec::new();
        let mut i: usize = 0;
        while i < sorted.len()
            invariant
                i <= sorted@.len(),
                slots@.len() == n,
                n == es.len(),
                entry_ids(es).no_duplicates(),
                is_sorted_set_of(sorted@, entry_ids(es)),
                out@.len() == i,
                forall|j: int| 0 <= j < i ==> (#[trigger] out@[j]).0 == sorted@[j]
                    && out@[j].1@ == entry_bytes(es, sorted@[j]),
                forall|k: int| 0 <= k < n ==> ((#[trigger] slots@[k]) is Some <==> !sorted@.take(i as int).contains(
                    es[n - 1 - k].0,
                )),
                forall|k: int| 0 <= k < n && (#[trigger] slots@[k]) is Some ==> (
                    slots@[k]->Some_0.0,
                    slots@[k]->Some_0.1@,
                ) == es[n - 1 - k],
            decreases sorted@.len() - i,
        {
            let id = sorted[i];
            proof {
                assert(sorted@.to_set().contains(id));
                assert(entry_ids(es).to_set().contains(id));
                let c = choose|c: int| 0 <= c < entry_ids(es).len() && entry_ids(es)[c] == id;
                let kk = n - 1 - c;
                assert(es[n - 1 - kk] == es[c]);
                assert(!sorted@.take(i as int).contains(id)) by {
                    if sorted@.take(i as int).contains(id) {
                        let j = choose|j: int| 0 <= j < i && sorted@.take(i as int)[j] == id;
                        assert(sorted@[j] == sorted@[i as int]);
                    }
                }
                assert(slots@[kk] is Some);
            }
            let mut k: usize = 0;
            while k < slots.len() && !slot_has(&slots, k, id)
                invariant
                    k <= slots@.len(),
                    slots@.len() == n,
                    forall|j: int| 0 <= j < k ==> !((#[trigger] slots@[j]) is Some && slots@[j]->Some_0.0 == id),
                    exists|j: int| 0 <= j < n && (#[trigger] slots@[j]) is Some && slots@[j]->Some_0.0 == id,
                decreases slots@.len() - k,
            {
                k = k + 1;
            }
            proof {
                if k >= n {
                    let j = choose|j: int| 0 <= j < n && (#[trigger] slots@[j]) is Some && slots@[j]->Some_0.0 == id;
                    assert(!(slots@[j] is Some && slots@[j]->Some_0.0 == id));
                }
            }
            let ghost before = slots@;
            let taken = slots[k].take();
            let (cid, bytes) = taken.unwrap();
            proof {
                assert(slots@ == before.update(k as int, None));
                assert(cid == id);
                let c = n - 1 - k;
                assert(es[c].0 == id);
                assert(entry_bytes(es, id) == es[c].1) by {
                    lemma_entry_index(es, id, c);
                }
                assert(sorted@.take(i + 1) =~= sorted@.take(i as int).push(id));
                assert forall|kk: int| 0 <= kk < n implies ((#[trigger] slots@[kk]) is Some <==> !sorted@.take(
                    i + 1,
                ).contains(es[n - 1 - kk].0)) by {
                    if kk != k as int {
                        assert(slots@[kk] == before[kk]);
                        if before[kk] is Some && es[n - 1 - kk].0 == id {
                            assert(entry_ids(es)[n - 1 - kk] == entry_ids(es)[c]);
                        }
                        let t1 = sorted@.take(i + 1);
                        let t0 = sorted@.take(i as int);
                        let x = es[n - 1 - kk].0;
                        if t1.contains(x) {
                            let j = choose|j: int| 0 <= j < t1.len() && t1[j] == x;
                            if j < i {
                                assert(t0[j] == x);
                            }
                        }
                        if t0.contains(x) {
                            let j = choose|j: int| 0 <= j < t0.len() && t0[j] == x;
                            assert(t1[j] == x);
                        }
                    } else {
                        assert(sorted@.take(i + 1)[i as int] == id);
                    }
                }
            }
            out.push((cid, bytes));
            i = i + 1;
        }
        proof {
            assert(out@.map_values(|e: (ComponentId, Vec<u8>)| e.0) =~= sorted@);
        }
        out
    }
}

} // verus!
