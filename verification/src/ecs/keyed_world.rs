//! A world whose components are named by integer keys and stored as bytes.
//!
//! Entities are generation-checked handles into a slot table with a free
//! list. The entities that have the same set of component keys share an
//! archetype, which holds one byte column per key. Components are added one
//! at a time: adding a key the entity already has replaces its bytes in
//! place; adding a new key moves the entity, with every component it has,
//! to the archetype of the larger set, created when missing.
use vstd::prelude::*;
use crate::ecs::entity::{Entity, bits_generation, bits_index, pack};
use crate::pool::page::swap_remove_step;

verus! {

/// The bytes of each column at row `r`.
pub open spec fn row_at(cols: Seq<Seq<Seq<u8>>>, r: int) -> Seq<Seq<u8>> {
    Seq::new(cols.len(), |c: int| cols[c][r])
}

/// Entities that share one set of component keys, with one column of
/// component bytes per key, in key order.
pub struct KeyedArchetype {
    keys: Vec<u64>,
    entities: Vec<Entity>,
    columns: Vec<Vec<Vec<u8>>>,
}

/// A copy of `b`.
fn copy_bytes(b: &Vec<u8>) -> (out: Vec<u8>)
    ensures
        out@ == b@,
{
    let mut out: Vec<u8> = Vec::new();
    let mut i: usize = 0;
    while i < b.len()
        invariant
            i <= b@.len(),
            out@ == b@.take(i as int),
        decreases b@.len() - i,
    {
        out.push(b[i]);
        i = i + 1;
        assert(out@ =~= b@.take(i as int));
    }
    assert(b@.take(b@.len() as int) =~= b@);
    out
}

/// Position of `t` in `keys`, each listed once.
fn key_position(keys: &Vec<u64>, t: u64) -> (r: Option<usize>)
    requires
        keys@.no_duplicates(),
    ensures
        match r {
            Some(c) => c < keys@.len() && keys@[c as int] == t && keys@.index_of(t) == c,
            None => !keys@.contains(t),
        },
{
    let mut c: usize = 0;
    while c < keys.len()
        invariant
            c <= keys@.len(),
            keys@.no_duplicates(),
            forall|j: int| 0 <= j < c ==> keys@[j] != t,
        decreases keys@.len() - c,
    {
        if keys[c] == t {
            proof {
                assert(keys@[c as int] == t);
                let i = keys@.index_of(t);
                assert(0 <= i < keys@.len() && keys@[i] == t);
                assert(i == c) by {
                    if i != c as int {
                        assert(keys@[i] != keys@[c as int]);
                    }
                }
            }
            return Some(c);
        }
        c = c + 1;
    }
    None
}

impl KeyedArchetype {
    /// Component keys of the columns, in column order.
    pub closed spec fn keys(&self) -> Seq<u64> {
        self.keys@
    }

    /// The entity in each row.
    pub closed spec fn ents(&self) -> Seq<Entity> {
        self.entities@
    }

    /// Each column's bytes, row by row.
    pub closed spec fn cols(&self) -> Seq<Seq<Seq<u8>>> {
        self.columns@.map_values(|c: Vec<Vec<u8>>| c@.map_values(|b: Vec<u8>| b@))
    }

    /// Keys listed once, one column per key, every column as long as the
    /// entity list.
    pub open spec fn wf(&self) -> bool {
        &&& self.keys().no_duplicates()
        &&& self.cols().len() == self.keys().len()
        &&& forall|c: int| 0 <= c < self.cols().len() ==> (#[trigger] self.cols()[c]).len() == self.ents().len()
    }

    proof fn lemma_views(&self)
        ensures
            self.cols().len() == self.columns@.len(),
            forall|c: int| 0 <= c < self.columns@.len() ==> (#[trigger] self.cols()[c]).len() == self.columns@[c]@.len(),
            forall|c: int, r: int|
                0 <= c < self.columns@.len() && 0 <= r < self.columns@[c]@.len() ==> #[trigger] self.cols()[c][r]
                    == self.columns@[c]@[r]@,
    {
    }

    /// An archetype of the keys `keys` (each once) with no entity.
    fn new(keys: Vec<u64>) -> (a: Self)
        requires
            keys@.no_duplicates(),
        ensures
            a.wf(),
            a.keys() == keys@,
            a.ents() == Seq::<Entity>::empty(),
            forall|c: int| 0 <= c < a.cols().len() ==> (#[trigger] a.cols()[c]) == Seq::<Seq<u8>>::empty(),
    {
        let n = keys.len();
        let mut columns: Vec<Vec<Vec<u8>>> = Vec::new();
        let mut i: usize = 0;
        while i < n
            invariant
                i <= n,
                columns@.len() == i,
                forall|c: int| 0 <= c < i ==> (#[trigger] columns@[c])@.len() == 0,
            decreases n - i,
        {
            columns.push(Vec::new());
            i = i + 1;
        }
        let a = KeyedArchetype { keys, entities: Vec::new(), columns };
        proof {
            a.lemma_views();
            assert forall|c: int| 0 <= c < a.cols().len() implies (#[trigger] a.cols()[c]) == Seq::<Seq<u8>>::empty() by {
                assert(a.cols()[c] =~= Seq::<Seq<u8>>::empty());
            }
        }
        a
    }

    /// A copy of the keys.
    fn copy_keys(&self) -> (ks: Vec<u64>)
        ensures
            ks@ == self.keys(),
    {
        let mut ks: Vec<u64> = Vec::new();
        let mut i: usize = 0;
        while i < self.keys.len()
            invariant
                i <= self.keys@.len(),
                ks@ == self.keys@.take(i as int),
            decreases self.keys@.len() - i,
        {
            ks.push(self.keys[i]);
            i = i + 1;
            assert(ks@ =~= self.keys@.take(i as int));
        }
        assert(self.keys@.take(self.keys@.len() as int) =~= self.keys@);
        ks
    }

    /// Bytes of column `c` at row `r`.
    fn cell(&self, c: usize, r: usize) -> (b: &Vec<u8>)
        requires
            self.wf(),
            c < self.keys().len(),
            r < self.ents().len(),
        ensures
            b@ == self.cols()[c as int][r as int],
    {
        proof {
            self.lemma_views();
            assert(self.cols()[c as int].len() == self.ents().len());
        }
        &self.columns[c][r]
    }

    /// Entity in row `r`.
    fn entity_at(&self, r: usize) -> (e: Entity)
        requires
            r < self.ents().len(),
        ensures
            e == self.ents()[r as int],
    {
        self.entities[r]
    }

    /// Number of rows.
    pub fn len(&self) -> (n: usize)
        ensures
            n == self.ents().len(),
    {
        self.entities.len()
    }

    /// Column of key `t`, if the archetype has one.
    fn position(&self, t: u64) -> (r: Option<usize>)
        requires
            self.wf(),
        ensures
            match r {
                Some(c) => c < self.keys().len() && self.keys()[c as int] == t && self.keys().index_of(t) == c,
                None => !self.keys().contains(t),
            },
    {
        key_position(&self.keys, t)
    }

    /// Whether the archetype's keys are exactly those of `ks`.
    fn has_keys(&self, ks: &Vec<u64>) -> (b: bool)
        ensures
            b == (self.keys().to_set() == ks@.to_set()),
    {
        let mut i: usize = 0;
        while i < ks.len()
            invariant
                i <= ks@.len(),
                forall|j: int| 0 <= j < i ==> self.keys@.contains(ks@[j]),
            decreases ks@.len() - i,
        {
            let mut found = false;
            let mut c: usize = 0;
            while c < self.keys.len()
                invariant
                    c <= self.keys@.len(),
                    i < ks@.len(),
                    found ==> self.keys@.contains(ks@[i as int]),
                    !found ==> forall|j: int| 0 <= j < c ==> self.keys@[j] != ks@[i as int],
                decreases self.keys@.len() - c,
            {
                if self.keys[c] == ks[i] {
                    found = true;
                }
                c = c + 1;
            }
            if !found {
                proof {
                    assert(ks@.to_set().contains(ks@[i as int]));
                    assert(!self.keys@.to_set().contains(ks@[i as int]));
                }
                return false;
            }
            i = i + 1;
        }
        let mut c: usize = 0;
        while c < self.keys.len()
            invariant
                c <= self.keys@.len(),
                forall|j: int| 0 <= j < c ==> ks@.contains(self.keys@[j]),
            decreases self.keys@.len() - c,
        {
            let mut found = false;
            let mut i2: usize = 0;
            while i2 < ks.len()
                invariant
                    i2 <= ks@.len(),
                    c < self.keys@.len(),
                    found ==> ks@.contains(self.keys@[c as int]),
                    !found ==> forall|j: int| 0 <= j < i2 ==> ks@[j] != self.keys@[c as int],
                decreases ks@.len() - i2,
            {
                if ks[i2] == self.keys[c] {
                    found = true;
                }
                i2 = i2 + 1;
            }
            if !found {
                proof {
                    assert(self.keys@.to_set().contains(self.keys@[c as int]));
                    assert(!ks@.to_set().contains(self.keys@[c as int]));
                }
                return false;
            }
            c = c + 1;
        }
        proof {
            assert forall|x: u64| self.keys@.to_set().contains(x) <==> ks@.to_set().contains(x) by {
                if self.keys@.to_set().contains(x) {
                    let j = choose|j: int| 0 <= j < self.keys@.len() && self.keys@[j] == x;
                    assert(ks@.contains(self.keys@[j]));
                }
                if ks@.to_set().contains(x) {
                    let j = choose|j: int| 0 <= j < ks@.len() && ks@[j] == x;
                    assert(self.keys@.contains(ks@[j]));
                }
            }
            assert(self.keys@.to_set() =~= ks@.to_set());
        }
        true
    }

    /// A copy of row `r`, column by column.
    fn copy_row(&self, r: usize) -> (row: Vec<Vec<u8>>)
        requires
            self.wf(),
            r < self.ents().len(),
        ensures
            row@.map_values(|b: Vec<u8>| b@) == row_at(self.cols(), r as int),
    {
        proof {
            self.lemma_views();
        }
        let mut row: Vec<Vec<u8>> = Vec::new();
        let mut c: usize = 0;
        while c < self.columns.len()
            invariant
                c <= self.columns@.len(),
                self.wf(),
                r < self.ents().len(),
                self.cols().len() == self.columns@.len(),
                row@.len() == c,
                forall|j: int| 0 <= j < c ==> (#[trigger] row@[j])@ == self.cols()[j][r as int],
            decreases self.columns@.len() - c,
        {
            proof {
                self.lemma_views();
                assert(self.cols()[c as int].len() == self.ents().len());
            }
            let b = copy_bytes(&self.columns[c][r]);
            row.push(b);
            c = c + 1;
        }
        assert(row@.map_values(|b: Vec<u8>| b@) =~= row_at(self.cols(), r as int));
        row
    }

    /// Replace the bytes of column `c` at row `r`.
    fn set_cell(&mut self, c: usize, r: usize, bytes: Vec<u8>)
        requires
            old(self).wf(),
            c < old(self).keys().len(),
            r < old(self).ents().len(),
        ensures
            final(self).wf(),
            final(self).keys() == old(self).keys(),
            final(self).ents() == old(self).ents(),
            final(self).cols() == old(self).cols().update(c as int, old(self).cols()[c as int].update(r as int, bytes@)),
    {
        proof {
            self.lemma_views();
        }
        let ghost c0 = self.cols();
        assert(self.cols()[c as int].len() == self.ents().len());
        self.columns[c].set(r, bytes);
        proof {
            self.lemma_views();
            let want = c0.update(c as int, c0[c as int].update(r as int, bytes@));
            assert forall|j: int| 0 <= j < want.len() implies #[trigger] self.cols()[j] == want[j] by {
                if j == c as int {
                    assert(self.cols()[j] =~= c0[j].update(r as int, bytes@));
                } else {
                    assert(self.cols()[j] =~= c0[j]);
                }
            }
            assert(self.cols() =~= want);
        }
    }

    /// Swap-remove row `r` from the entity list and every column. Returns
    /// the entity that moved into row `r`, if one did.
    fn remove_row(&mut self, r: usize) -> (moved: Option<Entity>)
        requires
            old(self).wf(),
            r < old(self).ents().len(),
        ensures
            final(self).wf(),
            final(self).keys() == old(self).keys(),
            final(self).ents() == swap_remove_step(old(self).ents(), r as int),
            final(self).cols().len() == old(self).cols().len(),
            forall|c: int| 0 <= c < old(self).cols().len() ==> #[trigger] final(self).cols()[c] == swap_remove_step(
                old(self).cols()[c],
                r as int,
            ),
            moved == (if r + 1 < old(self).ents().len() { Some(old(self).ents().last()) } else { None }),
    {
        proof {
            self.lemma_views();
        }
        let ghost c0 = self.cols();
        let ghost e0 = self.ents();
        let last = self.entities.len() - 1;
        let moved = if r < last { Some(self.entities[last]) } else { None };
        self.entities.swap_remove(r);
        let mut c: usize = 0;
        while c < self.columns.len()
            invariant
                c <= self.columns@.len(),
                self.columns@.len() == c0.len(),
                self.cols().len() == c0.len(),
                self.entities@ == swap_remove_step(e0, r as int),
                self.keys@ == old(self).keys@,
                e0.len() == old(self).ents().len(),
                r < e0.len(),
                forall|j: int| 0 <= j < c0.len() ==> (#[trigger] c0[j]).len() == e0.len(),
                forall|j: int| 0 <= j < c ==> #[trigger] self.cols()[j] == swap_remove_step(c0[j], r as int),
                forall|j: int| c <= j < c0.len() ==> #[trigger] self.cols()[j] == c0[j],
            decreases c0.len() - c,
        {
            let ghost before = self.cols();
            proof {
                self.lemma_views();
                assert(self.cols()[c as int] == c0[c as int]);
                assert(self.columns@[c as int]@.len() == e0.len());
            }
            self.columns[c].swap_remove(r);
            proof {
                self.lemma_views();
                assert forall|j: int| 0 <= j < c + 1 implies #[trigger] self.cols()[j] == swap_remove_step(c0[j], r as int) by {
                    if j == c as int {
                        assert(self.cols()[j] =~= swap_remove_step(before[j], r as int));
                    } else {
                        assert(self.cols()[j] =~= before[j]);
                    }
                }
                assert forall|j: int| c + 1 <= j < c0.len() implies #[trigger] self.cols()[j] == c0[j] by {
                    assert(self.cols()[j] =~= before[j]);
                }
            }
            c = c + 1;
        }
        moved
    }

    /// Append entity `e` with the bytes `row`, one per column.
    fn push_row(&mut self, e: Entity, row: Vec<Vec<u8>>)
        requires
            old(self).wf(),
            row@.len() == old(self).keys().len(),
        ensures
            final(self).wf(),
            final(self).keys() == old(self).keys(),
            final(self).ents() == old(self).ents().push(e),
            final(self).cols().len() == old(self).cols().len(),
            forall|c: int| 0 <= c < old(self).cols().len() ==> #[trigger] final(self).cols()[c] == old(self).cols()[c].push(
                row@[c]@,
            ),
    {
        proof {
            self.lemma_views();
        }
        let ghost c0 = self.cols();
        let ghost rv = row@;
        let mut row = row;
        self.entities.push(e);
        let n = self.columns.len();
        let mut c: usize = n;
        while c > 0
            invariant
                c <= n,
                n == c0.len(),
                self.columns@.len() == n,
                self.cols().len() == n,
                row@ == rv.take(c as int),
                rv.len() == n,
                self.keys@ == old(self).keys@,
                self.entities@ == old(self).ents().push(e),
                forall|j: int| c <= j < n ==> #[trigger] self.cols()[j] == c0[j].push(rv[j]@),
                forall|j: int| 0 <= j < c ==> #[trigger] self.cols()[j] == c0[j],
            decreases c,
        {
            let b = match row.pop() {
                Some(b) => b,
                None => Vec::new(),
            };
            assert(b == rv[c - 1]);
            let ghost before = self.cols();
            self.columns[c - 1].push(b);
            proof {
                self.lemma_views();
                assert(row@ =~= rv.take(c - 1));
                assert forall|j: int| c - 1 <= j < n implies #[trigger] self.cols()[j] == c0[j].push(rv[j]@) by {
                    if j == c - 1 {
                        assert(self.cols()[j] =~= before[j].push(rv[j]@));
                    } else {
                        assert(self.cols()[j] =~= before[j]);
                    }
                }
                assert forall|j: int| 0 <= j < c - 1 implies #[trigger] self.cols()[j] == c0[j] by {
                    assert(self.cols()[j] =~= before[j]);
                }
            }
            c = c - 1;
        }
        proof {
            assert(self.ents() == old(self).ents().push(e));
            assert forall|j: int| 0 <= j < self.cols().len() implies (#[trigger] self.cols()[j]).len() == self.ents().len() by {
                assert(c0[j].len() == old(self).ents().len());
            }
        }
    }
}


/// Where a slot stands: its generation, whether it holds a live entity, and
/// the archetype and row of its components, when it has any.
#[derive(Clone, Copy)]
pub struct SlotMeta {
    pub generation: u32,
    pub alive: bool,
    pub location: Option<(usize, usize)>,
}

/// Position of the archetype whose key set is that of `ks`, scanning from
/// the last.
pub open spec fn find_keys(archs: Seq<KeyedArchetype>, ks: Seq<u64>) -> Option<int>
    decreases archs.len(),
{
    if archs.len() == 0 {
        None
    } else if archs.last().keys().to_set() == ks.to_set() {
        Some(archs.len() - 1)
    } else {
        find_keys(archs.drop_last(), ks)
    }
}

proof fn lemma_find_keys(archs: Seq<KeyedArchetype>, ks: Seq<u64>, k: int)
    requires
        -1 <= k < archs.len(),
        forall|j: int| 0 <= j < archs.len() && j != k ==> (#[trigger] archs[j]).keys().to_set() != ks.to_set(),
        k >= 0 ==> archs[k].keys().to_set() == ks.to_set(),
    ensures
        find_keys(archs, ks) == (if k >= 0 { Some(k) } else { None::<int> }),
    decreases archs.len(),
{
    if archs.len() > 0 {
        let d = archs.drop_last();
        if k < archs.len() - 1 {
            assert(archs.last() == archs[archs.len() - 1]);
            assert forall|j: int| 0 <= j < d.len() && j != k implies (#[trigger] d[j]).keys().to_set() != ks.to_set() by {
                assert(d[j] == archs[j]);
            }
            if k >= 0 {
                assert(d[k] == archs[k]);
            }
            lemma_find_keys(d, ks, k);
        }
    }
}

/// `f` is `o` with the components of slot `i` taken out: its row is
/// swap-removed from its archetype, the entity that moved into that row
/// has its slot pointed there, and slot `i` has no location.
pub open spec fn detached(o: World, f: World, i: int) -> bool {
    &&& f.free() == o.free()
    &&& f.archs().len() == o.archs().len()
    &&& match o.slots()[i].location {
        None => f.archs() == o.archs() && f.slots() == o.slots(),
        Some((a, r)) => {
            let arch = o.archs()[a as int];
            let moved = if r + 1 < arch.ents().len() {
                let m = bits_index(arch.ents().last().0) as int;
                o.slots().update(m, SlotMeta { location: Some((a, r)), ..o.slots()[m] })
            } else {
                o.slots()
            };
            &&& forall|b: int| 0 <= b < o.archs().len() && b != a ==> #[trigger] f.archs()[b] == o.archs()[b]
            &&& f.archs()[a as int].keys() == arch.keys()
            &&& f.archs()[a as int].ents() == swap_remove_step(arch.ents(), r as int)
            &&& f.archs()[a as int].cols().len() == arch.cols().len()
            &&& forall|c: int| 0 <= c < arch.cols().len() ==> #[trigger] f.archs()[a as int].cols()[c]
                == swap_remove_step(arch.cols()[c], r as int)
            &&& f.slots() == moved.update(i, SlotMeta { location: None, ..o.slots()[i] })
        },
    }
}

/// Bytes for the column of key `kc` when the key `t` is added with `bytes`
/// to an entity whose components were `row`, keyed by `keys`.
pub open spec fn new_cell(keys: Seq<u64>, row: Seq<Seq<u8>>, t: u64, bytes: Seq<u8>, kc: u64) -> Seq<u8> {
    if kc == t {
        bytes
    } else {
        row[keys.index_of(kc)]
    }
}

/// Keys of the components that slot `i` has in `w`.
pub open spec fn keys_of(w: World, i: int) -> Seq<u64> {
    match w.slots()[i].location {
        Some((a, _)) => w.archs()[a as int].keys(),
        None => Seq::empty(),
    }
}

/// Bytes of the components that slot `i` has in `w`, in key order.
pub open spec fn row_of(w: World, i: int) -> Seq<Seq<u8>> {
    match w.slots()[i].location {
        Some((a, r)) => row_at(w.archs()[a as int].cols(), r as int),
        None => Seq::empty(),
    }
}

/// Position of the archetype of key set `nk` in `archs`, or the position
/// a new one takes when there is none.
pub open spec fn target_of(archs: Seq<KeyedArchetype>, nk: Seq<u64>) -> int {
    match find_keys(archs, nk) {
        Some(x) => x,
        None => archs.len() as int,
    }
}

/// `f` is `mid` with entity `e` of slot `i` appended to the archetype of
/// key set `nk` (a new one at the end when none has it), its row built
/// by [`new_cell`] in that archetype's key order, and slot `i` pointed at it.
pub open spec fn moved_in(
    mid: World,
    f: World,
    e: Entity,
    i: int,
    okeys: Seq<u64>,
    orow: Seq<Seq<u8>>,
    t: u64,
    bytes: Seq<u8>,
) -> bool {
    let nk = okeys.push(t);
    let b = find_keys(mid.archs(), nk);
    let bi = target_of(mid.archs(), nk);
    let pkeys = match b {
        Some(x) => mid.archs()[x].keys(),
        None => nk,
    };
    let pents = match b {
        Some(x) => mid.archs()[x].ents(),
        None => Seq::<Entity>::empty(),
    };
    let pcols = match b {
        Some(x) => mid.archs()[x].cols(),
        None => Seq::new(nk.len(), |c: int| Seq::<Seq<u8>>::empty()),
    };
    &&& f.archs().len() == (if b is Some { mid.archs().len() } else { mid.archs().len() + 1 })
    &&& forall|x: int| 0 <= x < mid.archs().len() && x != bi ==> #[trigger] f.archs()[x] == mid.archs()[x]
    &&& f.archs()[bi].keys() == pkeys
    &&& f.archs()[bi].ents() == pents.push(e)
    &&& f.archs()[bi].cols().len() == pkeys.len()
    &&& forall|c: int| 0 <= c < pkeys.len() ==> #[trigger] f.archs()[bi].cols()[c] == pcols[c].push(
        new_cell(okeys, orow, t, bytes, pkeys[c]),
    )
    &&& f.slots() == mid.slots().update(i, SlotMeta { location: Some((bi as usize, pents.len() as usize)), ..mid.slots()[i] })
    &&& f.free() == mid.free()
}

/// What adding the component `t` with `bytes` to the live entity `e` of
/// `o` gives: when `e` has `t`, its bytes are replaced in place; otherwise
/// `e` leaves its archetype and moves, with every component it had, to
/// the archetype of its keys and `t`.
pub open spec fn add_outcome(o: World, f: World, e: Entity, t: u64, bytes: Seq<u8>) -> bool {
    let i = bits_index(e.0) as int;
    let loc = o.slots()[i].location;
    if loc is Some && o.archs()[loc->Some_0.0 as int].keys().contains(t) {
        let (a, r) = loc->Some_0;
        let arch = o.archs()[a as int];
        let c = arch.keys().index_of(t);
        &&& f.slots() == o.slots()
        &&& f.free() == o.free()
        &&& f.archs().len() == o.archs().len()
        &&& forall|x: int| 0 <= x < o.archs().len() && x != a ==> #[trigger] f.archs()[x] == o.archs()[x]
        &&& f.archs()[a as int].keys() == arch.keys()
        &&& f.archs()[a as int].ents() == arch.ents()
        &&& f.archs()[a as int].cols() == arch.cols().update(c, arch.cols()[c].update(r as int, bytes))
    } else {
        exists|mid: World| #[trigger] detached(o, mid, i) && moved_in(mid, f, e, i, keys_of(o, i), row_of(o, i), t, bytes)
    }
}

/// The row for the archetype keyed by `tkeys` of an entity whose
/// components were `orow`, keyed by `okeys`, with `t` set to `bytes`.
fn arrange_row(tkeys: &Vec<u64>, okeys: &Vec<u64>, orow: &Vec<Vec<u8>>, t: u64, bytes: &Vec<u8>) -> (row: Vec<Vec<u8>>)
    requires
        okeys@.no_duplicates(),
        orow@.len() == okeys@.len(),
        forall|c: int| 0 <= c < tkeys@.len() ==> #[trigger] tkeys@[c] == t || okeys@.contains(tkeys@[c]),
    ensures
        row@.len() == tkeys@.len(),
        forall|c: int| 0 <= c < tkeys@.len() ==> (#[trigger] row@[c])@ == new_cell(
            okeys@,
            orow@.map_values(|b: Vec<u8>| b@),
            t,
            bytes@,
            tkeys@[c],
        ),
{
    let ghost rv = orow@.map_values(|b: Vec<u8>| b@);
    let mut row: Vec<Vec<u8>> = Vec::new();
    let mut c: usize = 0;
    while c < tkeys.len()
        invariant
            c <= tkeys@.len(),
            okeys@.no_duplicates(),
            orow@.len() == okeys@.len(),
            rv == orow@.map_values(|b: Vec<u8>| b@),
            forall|k: int| 0 <= k < tkeys@.len() ==> #[trigger] tkeys@[k] == t || okeys@.contains(tkeys@[k]),
            row@.len() == c,
            forall|k: int| 0 <= k < c ==> (#[trigger] row@[k])@ == new_cell(okeys@, rv, t, bytes@, tkeys@[k]),
        decreases tkeys@.len() - c,
    {
        let kc = tkeys[c];
        if kc == t {
            row.push(copy_bytes(bytes));
        } else {
            assert(okeys@.contains(tkeys@[c as int]));
            match key_position(okeys, kc) {
                Some(j) => {
                    row.push(copy_bytes(&orow[j]));
                },
                None => {
                    row.push(Vec::new());
                },
            }
        }
        c = c + 1;
    }
    row
}

/// Each entity of `a` with the bytes of its `t` component, row by row,
/// when `a` has `t`.
pub open spec fn rows_with(a: KeyedArchetype, t: u64) -> Seq<(Entity, Seq<u8>)> {
    if a.keys().contains(t) {
        let c = a.keys().index_of(t);
        Seq::new(a.ents().len(), |r: int| (a.ents()[r], a.cols()[c][r]))
    } else {
        Seq::empty()
    }
}

/// [`rows_with`] over the archetypes in order.
pub open spec fn query_rows(archs: Seq<KeyedArchetype>, t: u64) -> Seq<(Entity, Seq<u8>)>
    decreases archs.len(),
{
    if archs.len() == 0 {
        Seq::empty()
    } else {
        query_rows(archs.drop_last(), t) + rows_with(archs.last(), t)
    }
}

/// Each entity of `a` with the bytes of its `t1` and `t2` components,
/// when `a` has both.
pub open spec fn rows_with2(a: KeyedArchetype, t1: u64, t2: u64) -> Seq<(Entity, Seq<u8>, Seq<u8>)> {
    if a.keys().contains(t1) && a.keys().contains(t2) {
        let c1 = a.keys().index_of(t1);
        let c2 = a.keys().index_of(t2);
        Seq::new(a.ents().len(), |r: int| (a.ents()[r], a.cols()[c1][r], a.cols()[c2][r]))
    } else {
        Seq::empty()
    }
}

/// [`rows_with2`] over the archetypes in order.
pub open spec fn query_rows2(archs: Seq<KeyedArchetype>, t1: u64, t2: u64) -> Seq<(Entity, Seq<u8>, Seq<u8>)>
    decreases archs.len(),
{
    if archs.len() == 0 {
        Seq::empty()
    } else {
        query_rows2(archs.drop_last(), t1, t2) + rows_with2(archs.last(), t1, t2)
    }
}

/// Bytes of the component `t` of slot `i` in `w`, if it has one.
pub open spec fn comp_of(w: World, i: int, t: u64) -> Option<Seq<u8>> {
    match w.slots()[i].location {
        Some((a, r)) => {
            let arch = w.archs()[a as int];
            if arch.keys().contains(t) {
                Some(arch.cols()[arch.keys().index_of(t)][r as int])
            } else {
                None
            }
        },
        None => None,
    }
}

proof fn lemma_find_keys_some(archs: Seq<KeyedArchetype>, ks: Seq<u64>)
    ensures
        find_keys(archs, ks) matches Some(x) ==> 0 <= x < archs.len() && archs[x].keys().to_set() == ks.to_set(),
    decreases archs.len(),
{
    if archs.len() > 0 && archs.last().keys().to_set() != ks.to_set() {
        lemma_find_keys_some(archs.drop_last(), ks);
        match find_keys(archs.drop_last(), ks) {
            Some(x) => {
                assert(archs.drop_last()[x] == archs[x]);
            },
            None => {},
        }
    }
}

/// Taking the components of slot `i` out leaves every other slot's
/// components as they were, the one whose row moved included.
proof fn lemma_detach_keeps_others(o: World, mid: World, i: int)
    requires
        o.wf(),
        0 <= i < o.slots().len(),
        detached(o, mid, i),
    ensures
        forall|k: int, key: u64| 0 <= k < o.slots().len() && k != i ==> #[trigger] comp_of(mid, k, key) == comp_of(o, k, key),
{
    assert forall|k: int, key: u64| 0 <= k < o.slots().len() && k != i implies #[trigger] comp_of(mid, k, key) == comp_of(o, k, key) by {
        match o.slots()[i].location {
            None => {},
            Some((a, r)) => {
                let arch = o.archs()[a as int];
                assert(arch.wf());
                assert(arch.ents().len() == arch.entities.len());
                assert(bits_index(arch.ents()[r as int].0) == i);
                assert(mid.archs()[a as int].keys() == arch.keys());
                if r + 1 < arch.ents().len() && k == bits_index(arch.ents().last().0) {
                    assert(arch.ents()[arch.ents().len() - 1] == arch.ents().last());
                    assert(o.slots()[k].location == Some((a, (arch.ents().len() - 1) as usize)));
                    assert(mid.slots()[k].location == Some((a, r)));
                    if arch.keys().contains(key) {
                        let c = arch.keys().index_of(key);
                        assert(mid.archs()[a as int].cols()[c] == swap_remove_step(arch.cols()[c], r as int));
                        assert(arch.cols()[c].len() == arch.ents().len());
                        assert(swap_remove_step(arch.cols()[c], r as int)[r as int] == arch.cols()[c][arch.ents().len() - 1]);
                    }
                } else {
                    assert(mid.slots()[k] == o.slots()[k]);
                    match o.slots()[k].location {
                        None => {},
                        Some((a2, r2)) => {
                            if a2 == a {
                                assert(r2 != r);
                                assert(r2 + 1 < arch.ents().len()) by {
                                    if r2 + 1 == arch.ents().len() {
                                        assert(arch.ents()[r2 as int] == arch.ents().last());
                                    }
                                }
                                if arch.keys().contains(key) {
                                    let c = arch.keys().index_of(key);
                                    assert(mid.archs()[a as int].cols()[c] == swap_remove_step(arch.cols()[c], r as int));
                                    assert(arch.cols()[c].len() == arch.ents().len());
                                    assert(swap_remove_step(arch.cols()[c], r as int)[r2 as int] == arch.cols()[c][r2 as int]);
                                }
                            } else {
                                assert(mid.archs()[a2 as int] == o.archs()[a2 as int]);
                            }
                        },
                    }
                }
            },
        }
    }
}

/// Despawning the live entity `e` removes its components and leaves those
/// of every other entity as they were.
pub proof fn law_despawn_keeps_others(o: World, f: World, e: Entity)
    requires
        o.wf(),
        o.valid(e),
        exists|mid: World| {
            &&& #[trigger] detached(o, mid, bits_index(e.0) as int)
            &&& f.archs() == mid.archs()
            &&& f.slots() == mid.slots().update(
                bits_index(e.0) as int,
                SlotMeta { generation: o.slots()[bits_index(e.0) as int].generation.wrapping_add(1), alive: false, location: None },
            )
        },
    ensures
        forall|key: u64| #[trigger] comp_of(f, bits_index(e.0) as int, key) == None::<Seq<u8>>,
        forall|k: int, key: u64| 0 <= k < o.slots().len() && k != bits_index(e.0) ==> #[trigger] comp_of(f, k, key) == comp_of(o, k, key),
{
    let i = bits_index(e.0) as int;
    let mid = choose|mid: World| {
        &&& #[trigger] detached(o, mid, i)
        &&& f.archs() == mid.archs()
        &&& f.slots() == mid.slots().update(
            i,
            SlotMeta { generation: o.slots()[i].generation.wrapping_add(1), alive: false, location: None },
        )
    };
    lemma_detach_keeps_others(o, mid, i);
    assert forall|k: int, key: u64| 0 <= k < o.slots().len() && k != i implies #[trigger] comp_of(f, k, key) == comp_of(o, k, key) by {
        assert(comp_of(mid, k, key) == comp_of(o, k, key));
        assert(f.slots()[k] == mid.slots()[k]);
    }
}

/// Adding a component to a live entity, then reading it back, gives the
/// bytes just added; every other component of the entity reads as before,
/// whether the entity stayed in its archetype or moved to another.
pub proof fn law_add_then_get(o: World, f: World, e: Entity, t: u64, bytes: Seq<u8>)
    requires
        o.wf(),
        f.wf(),
        o.valid(e),
        add_outcome(o, f, e, t, bytes),
    ensures
        comp_of(f, bits_index(e.0) as int, t) == Some(bytes),
        forall|k: u64| k != t ==> #[trigger] comp_of(f, bits_index(e.0) as int, k) == comp_of(o, bits_index(e.0) as int, k),
        forall|j: int, k: u64| 0 <= j < o.slots().len() && j != bits_index(e.0) ==> #[trigger] comp_of(f, j, k) == comp_of(o, j, k),
{
    let i = bits_index(e.0) as int;
    let loc = o.slots()[i].location;
    if loc is Some && o.archs()[loc->Some_0.0 as int].keys().contains(t) {
        let (a, r) = loc->Some_0;
        let arch = o.archs()[a as int];
        let c = arch.keys().index_of(t);
        assert(arch.wf());
        assert forall|k: u64| k != t implies #[trigger] comp_of(f, i, k) == comp_of(o, i, k) by {
            if arch.keys().contains(k) {
                assert(arch.keys().index_of(k) != c);
            }
        }
        assert forall|j: int, k: u64| 0 <= j < o.slots().len() && j != i implies #[trigger] comp_of(f, j, k) == comp_of(o, j, k) by {
            match o.slots()[j].location {
                None => {},
                Some((a2, r2)) => {
                    if a2 == a {
                        assert(r2 != r) by {
                            assert(bits_index(arch.ents()[r as int].0) == i);
                        }
                    } else {
                        assert(f.archs()[a2 as int] == o.archs()[a2 as int]);
                    }
                },
            }
        }
    } else {
        let mid = choose|mid: World| #[trigger] detached(o, mid, i) && moved_in(mid, f, e, i, keys_of(o, i), row_of(o, i), t, bytes);
        let okeys = keys_of(o, i);
        let orow = row_of(o, i);
        let nk = okeys.push(t);
        let b = find_keys(mid.archs(), nk);
        let bi = match b {
            Some(x) => x,
            None => mid.archs().len() as int,
        };
        let pkeys = f.archs()[bi].keys();
        let pents = match b {
            Some(x) => mid.archs()[x].ents(),
            None => Seq::<Entity>::empty(),
        };
        lemma_find_keys_some(mid.archs(), nk);
        assert(moved_in(mid, f, e, i, okeys, orow, t, bytes));
        assert(pkeys.to_set() == nk.to_set());
        assert(f.slots()[i].location == Some((bi as usize, pents.len() as usize)));
        assert(f.archs().len() == f.archetypes.len());
        assert(f.archs()[bi].ents().len() == f.archs()[bi].entities.len());
        assert(f.archs()[bi].wf());
        assert forall|k: u64| k == t || okeys.contains(k) implies {
            &&& #[trigger] pkeys.contains(k)
            &&& f.archs()[bi].cols()[pkeys.index_of(k)][pents.len() as int] == new_cell(okeys, orow, t, bytes, k)
        } by {
            assert(nk.to_set().contains(k)) by {
                if k == t {
                    assert(nk[nk.len() - 1] == k);
                } else {
                    let w = choose|w: int| 0 <= w < okeys.len() && okeys[w] == k;
                    assert(nk[w] == k);
                }
            }
            assert(pkeys.to_set().contains(k));
            assert(pkeys.contains(k));
            let c = pkeys.index_of(k);
            assert(0 <= c < pkeys.len() && pkeys[c] == k);
            let col = f.archs()[bi].cols()[c];
            assert(col.len() == pents.len() + 1);
            assert(col == col.drop_last().push(new_cell(okeys, orow, t, bytes, k)));
            assert(col[pents.len() as int] == new_cell(okeys, orow, t, bytes, k));
        }
        assert(comp_of(f, i, t) == Some(bytes));
        assert forall|k: u64| k != t implies #[trigger] comp_of(f, i, k) == comp_of(o, i, k) by {
            if okeys.contains(k) {
                let (a, r) = loc->Some_0;
                assert(o.archs()[a as int].wf());
                let j = okeys.index_of(k);
                assert(orow[j] == o.archs()[a as int].cols()[j][r as int]);
            } else {
                assert(!pkeys.contains(k)) by {
                    if pkeys.contains(k) {
                        let w = choose|w: int| 0 <= w < pkeys.len() && pkeys[w] == k;
                        assert(pkeys.to_set().contains(k));
                        assert(nk.to_set().contains(k));
                        let w2 = choose|w2: int| 0 <= w2 < nk.len() && nk[w2] == k;
                        if w2 < okeys.len() {
                            assert(okeys[w2] == k);
                        }
                    }
                }
                if loc is Some {
                    assert(!o.archs()[loc->Some_0.0 as int].keys().contains(k));
                }
            }
        }
        lemma_detach_keeps_others(o, mid, i);
        assert forall|j: int, k: u64| 0 <= j < o.slots().len() && j != i implies #[trigger] comp_of(f, j, k) == comp_of(o, j, k) by {
            assert(comp_of(mid, j, k) == comp_of(o, j, k));
            assert(f.slots()[j] == mid.slots()[j]);
            match mid.slots()[j].location {
                None => {},
                Some((x, y)) => {
                    assert(x < f.archs().len() && y < f.archs()[x as int].ents().len());
                    assert(bits_index(f.archs()[x as int].ents()[y as int].0) == j);
                    if x as int == bi {
                        assert(y < pents.len()) by {
                            if y == pents.len() {
                                assert(f.archs()[bi].ents()[y as int] == e);
                            }
                        }
                        assert(match b {
                            Some(xx) => xx == bi,
                            None => false,
                        }) by {
                            if b is None {
                                assert(bi == mid.archs().len());
                                assert(pents.len() == 0);
                            }
                        }
                        assert(f.archs()[bi].keys() == mid.archs()[bi].keys());
                        let ak = mid.archs()[bi].keys();
                        if ak.contains(k) {
                            let c = ak.index_of(k);
                            let col = f.archs()[bi].cols()[c];
                            assert(col == mid.archs()[bi].cols()[c].push(new_cell(okeys, orow, t, bytes, ak[c])));
                            assert(col[y as int] == mid.archs()[bi].cols()[c][y as int]);
                        }
                    } else {
                        assert(x < mid.archs().len()) by {
                            if x >= mid.archs().len() {
                                assert(x as int == mid.archs().len());
                            }
                        }
                        assert(f.archs()[x as int] == mid.archs()[x as int]);
                    }
                },
            }
        }
    }
}

/// Bytes that the last pair of `cs` with key `key` gives, if one has it.
pub open spec fn last_for(cs: Seq<(u64, Seq<u8>)>, key: u64) -> Option<Seq<u8>>
    decreases cs.len(),
{
    if cs.len() == 0 {
        None
    } else if cs.last().0 == key {
        Some(cs.last().1)
    } else {
        last_for(cs.drop_last(), key)
    }
}

/// Entities, their slots, and the archetypes that hold their components.
pub struct World {
    slots: Vec<SlotMeta>,
    free: Vec<u32>,
    archetypes: Vec<KeyedArchetype>,
}

impl World {
    pub closed spec fn slots(&self) -> Seq<SlotMeta> {
        self.slots@
    }

    /// Slots ready for reuse, the next one last.
    pub closed spec fn free(&self) -> Seq<u32> {
        self.free@
    }

    /// The archetypes, in creation order.
    pub closed spec fn archs(&self) -> Seq<KeyedArchetype> {
        self.archetypes@
    }

    /// Every archetype is well formed and has a key set of its own; a slot
    /// with components names a row that holds its entity; every row's
    /// entity has a slot naming that row; dead slots have no components;
    /// free slots are dead and listed once.
    pub open spec fn wf(&self) -> bool {
        &&& self.slots().len() <= u32::MAX
        &&& forall|a: int| 0 <= a < self.archs().len() ==> (#[trigger] self.archs()[a]).wf()
        &&& forall|a: int, b: int|
            0 <= a < self.archs().len() && 0 <= b < self.archs().len() && a != b ==> (#[trigger] self.archs()[a]).keys().to_set()
                != (#[trigger] self.archs()[b]).keys().to_set()
        &&& forall|i: int| 0 <= i < self.slots().len() && (#[trigger] self.slots()[i]).location is Some ==> {
            let (a, r) = self.slots()[i].location->Some_0;
            &&& a < self.archs().len()
            &&& r < self.archs()[a as int].ents().len()
            &&& bits_index(self.archs()[a as int].ents()[r as int].0) == i
        }
        &&& forall|a: int, r: int| 0 <= a < self.archs().len() && 0 <= r < self.archs()[a].ents().len() ==> {
            let x = bits_index((#[trigger] self.archs()[a].ents()[r]).0) as int;
            &&& x < self.slots().len()
            &&& self.slots()[x].location == Some((a as usize, r as usize))
        }
        &&& forall|i: int| 0 <= i < self.slots().len() && !(#[trigger] self.slots()[i]).alive ==> self.slots()[i].location is None
        &&& forall|j: int| 0 <= j < self.free().len() ==> (#[trigger] self.free()[j]) < self.slots().len() && !self.slots()[self.free()[j] as int].alive
        &&& self.free().no_duplicates()
    }

    /// `e` names a live entity at its current generation.
    pub open spec fn valid(&self, e: Entity) -> bool {
        let i = bits_index(e.0) as int;
        &&& i < self.slots().len()
        &&& self.slots()[i].alive
        &&& self.slots()[i].generation == bits_generation(e.0)
    }

    /// A world with `capacity` dead slots, handed out from slot 0 up.
    pub fn with_capacity(capacity: usize) -> (w: Self)
        requires
            capacity <= u32::MAX,
        ensures
            w.wf(),
            w.slots().len() == capacity,
            forall|i: int| 0 <= i < capacity ==> (#[trigger] w.slots()[i]).generation == 0 && !w.slots()[i].alive,
            w.free() == Seq::new(capacity as nat, |j: int| (capacity - 1 - j) as u32),
            w.archs().len() == 0,
    {
        let mut slots: Vec<SlotMeta> = Vec::new();
        let mut free: Vec<u32> = Vec::new();
        let mut i: usize = 0;
        while i < capacity
            invariant
                i <= capacity,
                capacity <= u32::MAX,
                slots@.len() == i,
                forall|k: int| 0 <= k < i ==> (#[trigger] slots@[k]).generation == 0 && !slots@[k].alive
                    && slots@[k].location is None,
            decreases capacity - i,
        {
            slots.push(SlotMeta { generation: 0, alive: false, location: None });
            i = i + 1;
        }
        let mut k: usize = capacity;
        while k > 0
            invariant
                k <= capacity,
                capacity <= u32::MAX,
                free@ == Seq::new((capacity - k) as nat, |j: int| (capacity - 1 - j) as u32),
            decreases k,
        {
            k = k - 1;
            free.push(k as u32);
            assert(free@ =~= Seq::new((capacity - k) as nat, |j: int| (capacity - 1 - j) as u32));
        }
        let w = World { slots, free, archetypes: Vec::new() };
        assert(w.free().no_duplicates());
        w
    }

    /// A world with 1024 dead slots, handed out from slot 0 up.
    pub fn new() -> (w: Self)
        ensures
            w.wf(),
            w.slots().len() == 1024,
            forall|i: int| 0 <= i < 1024 ==> (#[trigger] w.slots()[i]).generation == 0 && !w.slots()[i].alive,
            w.free() == Seq::new(1024, |j: int| (1023 - j) as u32),
            w.archs().len() == 0,
    {
        Self::with_capacity(1024)
    }

    /// Whether `e` names a live entity at its current generation.
    pub fn is_valid(&self, e: Entity) -> (b: bool)
        ensures
            b == self.valid(e),
    {
        let i = e.index() as usize;
        if i < self.slots.len() {
            self.slots[i].alive && self.slots[i].generation == e.generation()
        } else {
            false
        }
    }

    /// Create an entity with no component in the next free slot. When no
    /// slot is free, the slot table first doubles, its new slots handed out
    /// from the lowest up.
    pub fn spawn(&mut self) -> (e: Entity)
        requires
            old(self).wf(),
            old(self).free().len() > 0 || (0 < old(self).slots().len() && 2 * old(self).slots().len() <= u32::MAX),
        ensures
            final(self).wf(),
            final(self).valid(e),
            final(self).archs() == old(self).archs(),
            forall|key: u64| #[trigger] comp_of(*final(self), bits_index(e.0) as int, key) == None::<Seq<u8>>,
            ({
                let n = old(self).slots().len();
                let idx = if old(self).free().len() > 0 { old(self).free().last() as int } else { n as int };
                &&& bits_index(e.0) == idx
                &&& bits_generation(e.0) == (if idx < n { old(self).slots()[idx].generation } else { 0 })
                &&& final(self).slots()[idx].location is None
                &&& if old(self).free().len() > 0 {
                    &&& final(self).slots() == old(self).slots().update(idx, SlotMeta { alive: true, ..old(self).slots()[idx] })
                    &&& final(self).free() == old(self).free().drop_last()
                } else {
                    &&& final(self).slots().len() == 2 * n
                    &&& forall|j: int| 0 <= j < n ==> #[trigger] final(self).slots()[j] == old(self).slots()[j]
                    &&& forall|j: int| n < j < 2 * n ==> (#[trigger] final(self).slots()[j]).generation == 0
                        && !final(self).slots()[j].alive
                    &&& final(self).free() == Seq::new((n - 1) as nat, |j: int| (2 * n - 1 - j) as u32)
                }
            }),
    {
        if self.free.len() == 0 {
            let old_cap = self.slots.len();
            let new_cap = old_cap * 2;
            let mut i: usize = old_cap;
            while i < new_cap
                invariant
                    old_cap <= i <= new_cap,
                    new_cap == 2 * old_cap,
                    new_cap <= u32::MAX,
                    self.slots@.len() == i,
                    forall|j: int| 0 <= j < old_cap ==> #[trigger] self.slots@[j] == old(self).slots()[j],
                    forall|j: int| old_cap <= j < i ==> (#[trigger] self.slots@[j]).generation == 0 && !self.slots@[j].alive
                        && self.slots@[j].location is None,
                    self.free@.len() == 0,
                    self.archetypes == old(self).archetypes,
                decreases new_cap - i,
            {
                self.slots.push(SlotMeta { generation: 0, alive: false, location: None });
                i = i + 1;
            }
            let mut k: usize = new_cap;
            while k > old_cap
                invariant
                    old_cap <= k <= new_cap,
                    new_cap == 2 * old_cap,
                    new_cap <= u32::MAX,
                    self.free@ == Seq::new((new_cap - k) as nat, |j: int| (new_cap - 1 - j) as u32),
                    self.slots@.len() == new_cap,
                    forall|j: int| 0 <= j < old_cap ==> #[trigger] self.slots@[j] == old(self).slots()[j],
                    forall|j: int| old_cap <= j < new_cap ==> (#[trigger] self.slots@[j]).generation == 0 && !self.slots@[j].alive
                        && self.slots@[j].location is None,
                    self.archetypes == old(self).archetypes,
                decreases k,
            {
                k = k - 1;
                self.free.push(k as u32);
                assert(self.free@ =~= Seq::new((new_cap - k) as nat, |j: int| (new_cap - 1 - j) as u32));
            }
            proof {
                assert forall|j: int| 0 <= j < self.free@.len() implies (#[trigger] self.free@[j]) < self.slots@.len()
                    && !self.slots@[self.free@[j] as int].alive by {
                    assert(self.free@[j] == (new_cap - 1 - j) as u32);
                    assert(old_cap <= self.free@[j] < new_cap);
                }
                assert(self.free@.no_duplicates());
                assert forall|i: int| 0 <= i < self.slots().len() && (#[trigger] self.slots()[i]).location is Some implies {
                    let (a, r) = self.slots()[i].location->Some_0;
                    &&& a < self.archs().len()
                    &&& r < self.archs()[a as int].ents().len()
                    &&& bits_index(self.archs()[a as int].ents()[r as int].0) == i
                } by {
                    assert(i < old_cap);
                    assert(self.slots()[i] == old(self).slots()[i]);
                }
                assert forall|a: int, r: int| 0 <= a < self.archs().len() && 0 <= r < self.archs()[a].ents().len() implies {
                    let x = bits_index((#[trigger] self.archs()[a].ents()[r]).0) as int;
                    &&& x < self.slots().len()
                    &&& self.slots()[x].location == Some((a as usize, r as usize))
                } by {
                    let x = bits_index(self.archs()[a].ents()[r].0) as int;
                    assert(self.archs()[a] == old(self).archs()[a]);
                    assert(x < old_cap);
                    assert(self.slots()[x] == old(self).slots()[x]);
                }
                assert forall|i: int| 0 <= i < self.slots().len() && !(#[trigger] self.slots()[i]).alive implies self.slots()[i].location is None by {
                    if i < old_cap {
                        assert(self.slots()[i] == old(self).slots()[i]);
                    }
                }
                assert(self.wf());
            }
        }
        let ghost mid = *self;
        let idx = match self.free.pop() {
            Some(x) => x,
            None => 0,
        };
        let m = self.slots[idx as usize];
        self.slots.set(idx as usize, SlotMeta { alive: true, ..m });
        proof {
            assert(mid.free().last() == idx);
            assert(!mid.slots()[idx as int].alive);
            assert(m.location is None);
            assert forall|j: int| 0 <= j < self.free().len() implies (#[trigger] self.free()[j]) < self.slots().len()
                && !self.slots()[self.free()[j] as int].alive by {
                assert(self.free()[j] == mid.free()[j]);
                assert(mid.free()[j] != mid.free()[mid.free().len() - 1]);
            }
            if old(self).free().len() == 0 {
                assert(self.free() =~= Seq::new((old(self).slots().len() - 1) as nat, |j: int| (2 * old(self).slots().len() - 1 - j) as u32));
            }
            assert(self.archs() == mid.archs());
            assert forall|i: int| 0 <= i < self.slots().len() && (#[trigger] self.slots()[i]).location is Some implies {
                let (a, r) = self.slots()[i].location->Some_0;
                &&& a < self.archs().len()
                &&& r < self.archs()[a as int].ents().len()
                &&& bits_index(self.archs()[a as int].ents()[r as int].0) == i
            } by {
                assert(i != idx);
                assert(self.slots()[i] == mid.slots()[i]);
            }
            assert forall|a: int, r: int| 0 <= a < self.archs().len() && 0 <= r < self.archs()[a].ents().len() implies {
                let x = bits_index((#[trigger] self.archs()[a].ents()[r]).0) as int;
                &&& x < self.slots().len()
                &&& self.slots()[x].location == Some((a as usize, r as usize))
            } by {
                let x = bits_index(self.archs()[a].ents()[r].0) as int;
                assert(mid.slots()[x].location == Some((a as usize, r as usize)));
                assert(x != idx);
            }
            assert forall|i: int| 0 <= i < self.slots().len() && !(#[trigger] self.slots()[i]).alive implies self.slots()[i].location is None by {
                assert(i != idx);
                assert(self.slots()[i] == mid.slots()[i]);
            }
            assert(self.free().no_duplicates()) by {
                assert forall|a: int, b: int| 0 <= a < b < self.free().len() implies self.free()[a] != self.free()[b] by {
                    assert(self.free()[a] == mid.free()[a] && self.free()[b] == mid.free()[b]);
                }
            }
        }
        Entity::new(idx, m.generation)
    }

    /// Take the components of slot `i` out of its archetype.
    fn detach(&mut self, i: usize)
        requires
            old(self).wf(),
            i < old(self).slots().len(),
        ensures
            final(self).wf(),
            detached(*old(self), *final(self), i as int),
    {
        let m = self.slots[i];
        match m.location {
            None => {},
            Some((a, r)) => {
                let ghost o = *self;
                let ghost arch = o.archs()[a as int];
                let moved = self.archetypes[a].remove_row(r);
                match moved {
                    Some(me) => {
                        let mi = me.index() as usize;
                        proof {
                            assert(arch.ents()[arch.ents().len() - 1] == arch.ents().last());
                            assert(o.slots()[mi as int].location == Some((a, (arch.ents().len() - 1) as usize)));
                        }
                        let mm = self.slots[mi];
                        self.slots.set(mi, SlotMeta { location: Some((a, r)), ..mm });
                    },
                    None => {},
                }
                let m2 = self.slots[i];
                self.slots.set(i, SlotMeta { location: None, ..m2 });
                proof {
                    let f = *self;
                    assert forall|b: int| 0 <= b < o.archs().len() && b != a implies #[trigger] f.archs()[b] == o.archs()[b] by {}
                    assert forall|x: int| 0 <= x < f.archs().len() implies (#[trigger] f.archs()[x]).wf() by {
                        if x != a {
                            assert(f.archs()[x] == o.archs()[x]);
                        }
                    }
                    assert forall|x: int, y: int|
                        0 <= x < f.archs().len() && 0 <= y < f.archs().len() && x != y implies (#[trigger] f.archs()[x]).keys().to_set()
                            != (#[trigger] f.archs()[y]).keys().to_set() by {
                        assert(f.archs()[x].keys() == o.archs()[x].keys());
                        assert(f.archs()[y].keys() == o.archs()[y].keys());
                    }
                    assert forall|k: int| 0 <= k < f.slots().len() && (#[trigger] f.slots()[k]).location is Some implies {
                        let (a2, r2) = f.slots()[k].location->Some_0;
                        &&& a2 < f.archs().len()
                        &&& r2 < f.archs()[a2 as int].ents().len()
                        &&& bits_index(f.archs()[a2 as int].ents()[r2 as int].0) == k
                    } by {
                        let (a2, r2) = f.slots()[k].location->Some_0;
                        if moved is Some && k == bits_index(arch.ents().last().0) {
                            assert(a2 == a && r2 == r);
                        } else {
                            assert(f.slots()[k] == o.slots()[k]);
                            if a2 == a {
                                assert(r2 != r);
                                assert(r2 < arch.ents().len() - 1) by {
                                    if r2 == arch.ents().len() - 1 {
                                        assert(bits_index(arch.ents()[r2 as int].0) == k);
                                        assert(arch.ents()[r2 as int] == arch.ents().last());
                                    }
                                }
                            } else {
                                assert(f.archs()[a2 as int] == o.archs()[a2 as int]);
                            }
                        }
                    }
                    assert forall|x: int, y: int| 0 <= x < f.archs().len() && 0 <= y < f.archs()[x].ents().len() implies {
                        let k = bits_index((#[trigger] f.archs()[x].ents()[y]).0) as int;
                        &&& k < f.slots().len()
                        &&& f.slots()[k].location == Some((x as usize, y as usize))
                    } by {
                        let k = bits_index(f.archs()[x].ents()[y].0) as int;
                        assert(o.archs().len() == o.archetypes.len());
                        assert(o.archs()[x].ents().len() == o.archs()[x].entities.len());
                        assert(arch.ents().len() == arch.entities.len());
                        if x != a {
                            assert(f.archs()[x] == o.archs()[x]);
                            assert(f.archs()[x].ents()[y] == o.archs()[x].ents()[y]);
                            assert(k != i) by {
                                assert(o.slots()[k].location == Some((x as usize, y as usize)));
                            }
                            if moved is Some {
                                assert(k != bits_index(arch.ents().last().0)) by {
                                    assert(o.slots()[bits_index(arch.ents().last().0) as int].location
                                        == Some((a, (arch.ents().len() - 1) as usize)));
                                }
                            }
                        } else if y == r {
                            assert(f.archs()[x].ents()[y] == arch.ents().last());
                        } else {
                            assert(f.archs()[x].ents()[y] == arch.ents()[y]);
                            assert(o.slots()[k].location == Some((x as usize, y as usize)));
                            if moved is Some {
                                assert(k != bits_index(arch.ents().last().0)) by {
                                    assert(o.slots()[bits_index(arch.ents().last().0) as int].location
                                        == Some((a, (arch.ents().len() - 1) as usize)));
                                }
                            }
                        }
                    }
                    assert forall|k: int| 0 <= k < f.slots().len() && !(#[trigger] f.slots()[k]).alive implies f.slots()[k].location is None by {
                        if k != i {
                            if moved is Some && k == bits_index(arch.ents().last().0) {
                                assert(o.slots()[k].alive);
                            }
                        }
                    }
                    assert forall|j: int| 0 <= j < f.free().len() implies (#[trigger] f.free()[j]) < f.slots().len()
                        && !f.slots()[f.free()[j] as int].alive by {
                        assert(f.free()[j] == o.free()[j]);
                    }
                }
            },
        }
    }

    /// Destroy `e` and its components; its slot's generation moves on and
    /// the slot goes to the free list. False, with nothing changed, when
    /// `e` is not live.
    pub fn despawn(&mut self, e: Entity) -> (r: bool)
        requires
            old(self).wf(),
        ensures
            final(self).wf(),
            r == old(self).valid(e),
            !r ==> *final(self) == *old(self),
            r ==> {
                let i = bits_index(e.0) as int;
                exists|mid: World| {
                    &&& detached(*old(self), mid, i)
                    &&& final(self).archs() == mid.archs()
                    &&& final(self).slots() == mid.slots().update(
                        i,
                        SlotMeta { generation: old(self).slots()[i].generation.wrapping_add(1), alive: false, location: None },
                    )
                    &&& final(self).free() == old(self).free().push(i as u32)
                }
            },
    {
        if !self.is_valid(e) {
            return false;
        }
        let i = e.index() as usize;
        self.detach(i);
        let ghost mid = *self;
        let m = self.slots[i];
        self.slots.set(i, SlotMeta { generation: m.generation.wrapping_add(1), alive: false, location: None });
        self.free.push(i as u32);
        proof {
            let f = *self;
            assert(mid.slots()[i as int].generation == old(self).slots()[i as int].generation);
            assert forall|k: int| 0 <= k < f.slots().len() && (#[trigger] f.slots()[k]).location is Some implies {
                let (a2, r2) = f.slots()[k].location->Some_0;
                &&& a2 < f.archs().len()
                &&& r2 < f.archs()[a2 as int].ents().len()
                &&& bits_index(f.archs()[a2 as int].ents()[r2 as int].0) == k
            } by {
                assert(f.slots()[k] == mid.slots()[k]);
            }
            assert forall|x: int, y: int| 0 <= x < f.archs().len() && 0 <= y < f.archs()[x].ents().len() implies {
                let k = bits_index((#[trigger] f.archs()[x].ents()[y]).0) as int;
                &&& k < f.slots().len()
                &&& f.slots()[k].location == Some((x as usize, y as usize))
            } by {
                let k = bits_index(f.archs()[x].ents()[y].0) as int;
                assert(mid.slots()[k].location == Some((x as usize, y as usize)));
            }
            assert forall|k: int| 0 <= k < f.slots().len() && !(#[trigger] f.slots()[k]).alive implies f.slots()[k].location is None by {
                if k != i {
                    assert(f.slots()[k] == mid.slots()[k]);
                }
            }
            assert forall|j: int| 0 <= j < f.free().len() implies (#[trigger] f.free()[j]) < f.slots().len()
                && !f.slots()[f.free()[j] as int].alive by {
                if j < mid.free().len() {
                    assert(f.free()[j] == mid.free()[j]);
                    assert(mid.slots()[mid.free()[j] as int].alive == old(self).slots()[mid.free()[j] as int].alive) by {
                        let ghost fj = mid.free()[j] as int;
                        assert(!old(self).slots()[fj].alive);
                        if old(self).slots()[i as int].location is Some {
                            let (a, r) = old(self).slots()[i as int].location->Some_0;
                            let arch = old(self).archs()[a as int];
                            if r + 1 < arch.ents().len() {
                                let mm = bits_index(arch.ents().last().0) as int;
                                assert(arch.ents()[arch.ents().len() - 1] == arch.ents().last());
                                assert(old(self).slots()[mm].location is Some);
                            }
                        }
                    }
                }
            }
            assert(f.free().no_duplicates()) by {
                assert forall|a: int, b: int| 0 <= a < b < f.free().len() implies f.free()[a] != f.free()[b] by {
                    if b == f.free().len() - 1 {
                        assert(!old(self).slots()[old(self).free()[a] as int].alive);
                    }
                }
            }
            assert(f.wf());
        }
        true
    }

    /// Position of the archetype whose key set is that of `ks`.
    fn find_archetype(&self, ks: &Vec<u64>) -> (r: Option<usize>)
        requires
            self.wf(),
        ensures
            match r {
                Some(b) => b < self.archs().len() && find_keys(self.archs(), ks@) == Some(b as int)
                    && self.archs()[b as int].keys().to_set() == ks@.to_set(),
                None => find_keys(self.archs(), ks@) == None::<int> && forall|j: int|
                    0 <= j < self.archs().len() ==> (#[trigger] self.archs()[j]).keys().to_set() != ks@.to_set(),
            },
    {
        let mut j: usize = 0;
        while j < self.archetypes.len()
            invariant
                j <= self.archs().len(),
                self.wf(),
                forall|x: int| 0 <= x < j ==> (#[trigger] self.archs()[x]).keys().to_set() != ks@.to_set(),
            decreases self.archs().len() - j,
        {
            if self.archetypes[j].has_keys(ks) {
                proof {
                    assert forall|x: int| 0 <= x < self.archs().len() && x != j implies (#[trigger] self.archs()[x]).keys().to_set()
                        != ks@.to_set() by {
                        if x > j {
                            assert(self.archs()[x].keys().to_set() != self.archs()[j as int].keys().to_set());
                        }
                    }
                    lemma_find_keys(self.archs(), ks@, j as int);
                }
                return Some(j);
            }
            j = j + 1;
        }
        proof {
            lemma_find_keys(self.archs(), ks@, -1);
        }
        None
    }

    /// Add the component `t` with `bytes` to `e`. When `e` has `t`, its
    /// bytes are replaced in place; otherwise `e` moves, with every
    /// component it has, to the archetype of its keys and `t`, created
    /// when missing. False, with nothing changed, when `e` is not live.
    pub fn add_component(&mut self, e: Entity, t: u64, bytes: Vec<u8>) -> (added: bool)
        requires
            old(self).wf(),
        ensures
            final(self).wf(),
            added == old(self).valid(e),
            !added ==> *final(self) == *old(self),
            added ==> add_outcome(*old(self), *final(self), e, t, bytes@),
            added ==> final(self).valid(e),
    {
        if !self.is_valid(e) {
            return false;
        }
        let i = e.index() as usize;
        let loc = self.slots[i].location;
        let mut okeys: Vec<u64> = Vec::new();
        let mut orow: Vec<Vec<u8>> = Vec::new();
        match loc {
            Some((a, r)) => {
                proof {
                    assert(a < self.archs().len() && r < self.archs()[a as int].ents().len());
                }
                match self.archetypes[a].position(t) {
                    Some(c) => {
                        let ghost o = *self;
                        self.archetypes[a].set_cell(c, r, bytes);
                        proof {
                            let f = *self;
                            assert forall|x: int| 0 <= x < f.archs().len() implies (#[trigger] f.archs()[x]).wf() by {
                                if x != a {
                                    assert(f.archs()[x] == o.archs()[x]);
                                }
                            }
                            assert forall|x: int, y: int|
                                0 <= x < f.archs().len() && 0 <= y < f.archs().len() && x != y implies (#[trigger] f.archs()[x]).keys().to_set()
                                    != (#[trigger] f.archs()[y]).keys().to_set() by {
                                assert(f.archs()[x].keys() == o.archs()[x].keys());
                                assert(f.archs()[y].keys() == o.archs()[y].keys());
                            }
                            assert forall|k: int| 0 <= k < f.slots().len() && (#[trigger] f.slots()[k]).location is Some implies {
                                let (a2, r2) = f.slots()[k].location->Some_0;
                                &&& a2 < f.archs().len()
                                &&& r2 < f.archs()[a2 as int].ents().len()
                                &&& bits_index(f.archs()[a2 as int].ents()[r2 as int].0) == k
                            } by {
                                let (a2, r2) = f.slots()[k].location->Some_0;
                                assert(f.archs()[a2 as int].ents() == o.archs()[a2 as int].ents());
                            }
                            assert forall|x: int, y: int| 0 <= x < f.archs().len() && 0 <= y < f.archs()[x].ents().len() implies {
                                let k = bits_index((#[trigger] f.archs()[x].ents()[y]).0) as int;
                                &&& k < f.slots().len()
                                &&& f.slots()[k].location == Some((x as usize, y as usize))
                            } by {
                                assert(f.archs()[x].ents() == o.archs()[x].ents());
                                assert(f.archs()[x].ents()[y] == o.archs()[x].ents()[y]);
                            }
                            assert(f.wf());
                            assert(o.archs()[a as int].keys().contains(t));
                        }
                        return true;
                    },
                    None => {
                        okeys = self.archetypes[a].copy_keys();
                        orow = self.archetypes[a].copy_row(r);
                    },
                }
            },
            None => {},
        }
        let ghost o = *self;
        let ghost ok = okeys@;
        let ghost orv = orow@.map_values(|b: Vec<u8>| b@);
        proof {
            assert(ok == keys_of(o, i as int));
            assert(orv == row_of(o, i as int));
            assert(!ok.contains(t));
            assert(ok.no_duplicates()) by {
                if loc is Some {
                    assert(o.archs()[loc->Some_0.0 as int].wf());
                }
            }
            assert(orv.len() == ok.len()) by {
                if loc is Some {
                    assert(o.archs()[loc->Some_0.0 as int].wf());
                }
            }
        }
        let mut nk: Vec<u64> = Vec::new();
        let mut q: usize = 0;
        while q < okeys.len()
            invariant
                q <= okeys@.len(),
                nk@ == okeys@.take(q as int),
            decreases okeys@.len() - q,
        {
            nk.push(okeys[q]);
            q = q + 1;
            assert(nk@ =~= okeys@.take(q as int));
        }
        assert(okeys@.take(okeys@.len() as int) =~= okeys@);
        nk.push(t);
        proof {
            assert(nk@ == ok.push(t));
            assert(nk@.no_duplicates()) by {
                assert forall|x: int, y: int| 0 <= x < y < nk@.len() implies nk@[x] != nk@[y] by {
                    if y == nk@.len() - 1 {
                        assert(ok.contains(nk@[x]));
                    }
                }
            }
        }
        self.detach(i);
        let ghost mid = *self;
        let found = self.find_archetype(&nk);
        let b = match found {
            Some(b) => b,
            None => {
                let na = KeyedArchetype::new(nk);
                self.archetypes.push(na);
                self.archetypes.len() - 1
            },
        };
        let ghost mid2 = *self;
        proof {
            assert(mid2.archs()[b as int].keys().to_set() == ok.push(t).to_set()) by {
                if found is None {
                    assert(mid2.archs()[b as int].keys() == ok.push(t));
                }
            }
            assert forall|c: int| 0 <= c < mid2.archs()[b as int].keys().len() implies
                #[trigger] mid2.archs()[b as int].keys()[c] == t || ok.contains(mid2.archs()[b as int].keys()[c]) by {
                let kc = mid2.archs()[b as int].keys()[c];
                assert(mid2.archs()[b as int].keys().to_set().contains(kc));
                assert(ok.push(t).to_set().contains(kc));
                let w = choose|w: int| 0 <= w < ok.push(t).len() && ok.push(t)[w] == kc;
                if w < ok.len() {
                    assert(ok[w] == kc);
                }
            }
        }
        let row = arrange_row(&self.archetypes[b].keys, &okeys, &orow, t, &bytes);
        let len_before = self.archetypes[b].len();
        self.archetypes[b].push_row(e, row);
        let m = self.slots[i];
        self.slots.set(i, SlotMeta { location: Some((b, len_before)), ..m });
        proof {
            let f = *self;
            let nkv = ok.push(t);
            let bi = b as int;
            let pa = mid2.archs()[bi];
            assert(f.archs() == mid2.archs().update(bi, f.archs()[bi]));
            assert(mid.slots()[i as int].location is None);
            assert(mid.slots()[i as int].alive);
            assert(f.archs()[bi].ents()[len_before as int] == e);
            if found is Some {
                assert(mid2.archs() == mid.archs());
            } else {
                assert(mid2.archs() == mid.archs().push(pa));
                assert(pa.cols() =~= Seq::new(nkv.len(), |c: int| Seq::<Seq<u8>>::empty()));
            }
            assert forall|x: int| 0 <= x < f.archs().len() implies (#[trigger] f.archs()[x]).wf() by {
                if x != bi {
                    assert(f.archs()[x] == mid.archs()[x]);
                }
            }
            assert forall|x: int, y: int|
                0 <= x < f.archs().len() && 0 <= y < f.archs().len() && x != y implies (#[trigger] f.archs()[x]).keys().to_set()
                    != (#[trigger] f.archs()[y]).keys().to_set() by {
                assert(f.archs()[x].keys() == mid2.archs()[x].keys());
                assert(f.archs()[y].keys() == mid2.archs()[y].keys());
                if found is Some {
                    assert(mid.archs()[x].keys().to_set() != mid.archs()[y].keys().to_set());
                } else if x == bi {
                    assert(mid.archs()[y].keys().to_set() != nkv.to_set());
                } else if y == bi {
                    assert(mid.archs()[x].keys().to_set() != nkv.to_set());
                } else {
                    assert(mid.archs()[x].keys().to_set() != mid.archs()[y].keys().to_set());
                }
            }
            assert forall|k: int| 0 <= k < f.slots().len() && (#[trigger] f.slots()[k]).location is Some implies {
                let (a2, r2) = f.slots()[k].location->Some_0;
                &&& a2 < f.archs().len()
                &&& r2 < f.archs()[a2 as int].ents().len()
                &&& bits_index(f.archs()[a2 as int].ents()[r2 as int].0) == k
            } by {
                if k != i as int {
                    let (a2, r2) = f.slots()[k].location->Some_0;
                    assert(f.slots()[k] == mid.slots()[k]);
                    assert(mid.archs()[a2 as int].ents()[r2 as int] == f.archs()[a2 as int].ents()[r2 as int]);
                }
            }
            assert forall|x: int, y: int| 0 <= x < f.archs().len() && 0 <= y < f.archs()[x].ents().len() implies {
                let k = bits_index((#[trigger] f.archs()[x].ents()[y]).0) as int;
                &&& k < f.slots().len()
                &&& f.slots()[k].location == Some((x as usize, y as usize))
            } by {
                assert(f.archs().len() == self.archetypes.len());
                assert(f.archs()[x].ents().len() == f.archs()[x].entities.len());
                if !(x == bi && y == len_before) {
                    assert(x < mid.archs().len());
                    assert(f.archs()[x].ents()[y] == mid.archs()[x].ents()[y]);
                    let k = bits_index(mid.archs()[x].ents()[y].0) as int;
                    assert(mid.slots()[k].location == Some((x as usize, y as usize)));
                    assert(k != i as int);
                }
            }
            assert forall|k: int| 0 <= k < f.slots().len() && !(#[trigger] f.slots()[k]).alive implies f.slots()[k].location is None by {
                assert(k != i as int);
                assert(f.slots()[k] == mid.slots()[k]);
            }
            assert forall|j: int| 0 <= j < f.free().len() implies (#[trigger] f.free()[j]) < f.slots().len()
                && !f.slots()[f.free()[j] as int].alive by {
                assert(!mid.slots()[mid.free()[j] as int].alive);
                assert(mid.free()[j] != i);
            }
            assert(f.wf());
            assert(find_keys(mid.archs(), nkv) == (if found is Some { Some(bi) } else { None::<int> }));
            assert forall|c: int| 0 <= c < pa.keys().len() implies #[trigger] f.archs()[bi].cols()[c] == pa.cols()[c].push(
                new_cell(ok, orv, t, bytes@, pa.keys()[c]),
            ) by {
                assert(row@[c]@ == new_cell(ok, orv, t, bytes@, pa.keys()[c]));
            }
            assert(f.slots()[i as int].alive && f.slots()[i as int].generation == o.slots()[i as int].generation);
            assert(moved_in(mid, f, e, i as int, ok, orv, t, bytes@));
            assert(detached(o, mid, i as int));
        }
        true
    }

    /// Spawn an entity and add the components `comps`, key and bytes, one
    /// after the other; a key given twice keeps its last bytes.
    pub fn spawn_with(&mut self, comps: Vec<(u64, Vec<u8>)>) -> (e: Entity)
        requires
            old(self).wf(),
            old(self).free().len() > 0 || (0 < old(self).slots().len() && 2 * old(self).slots().len() <= u32::MAX),
        ensures
            final(self).wf(),
            final(self).valid(e),
            forall|key: u64| #[trigger] comp_of(*final(self), bits_index(e.0) as int, key) == last_for(
                comps@.map_values(|p: (u64, Vec<u8>)| (p.0, p.1@)),
                key,
            ),
    {
        let ghost cs = comps@.map_values(|p: (u64, Vec<u8>)| (p.0, p.1@));
        let e = self.spawn();
        let ghost i = bits_index(e.0) as int;
        let mut j: usize = 0;
        while j < comps.len()
            invariant
                j <= comps@.len(),
                cs == comps@.map_values(|p: (u64, Vec<u8>)| (p.0, p.1@)),
                self.wf(),
                self.valid(e),
                i == bits_index(e.0) as int,
                forall|key: u64| #[trigger] comp_of(*self, i, key) == last_for(cs.take(j as int), key),
            decreases comps@.len() - j,
        {
            let t = comps[j].0;
            let b = copy_bytes(&comps[j].1);
            let ghost o = *self;
            self.add_component(e, t, b);
            proof {
                law_add_then_get(o, *self, e, t, b@);
                let tk = cs.take(j + 1);
                assert(tk.drop_last() =~= cs.take(j as int));
                assert(tk.last() == (t, b@));
            }
            j = j + 1;
        }
        proof {
            assert(cs.take(comps@.len() as int) =~= cs);
        }
        e
    }

    /// Add two components, `t1` then `t2`, to `e`.
    pub fn add_component2(&mut self, e: Entity, t1: u64, b1: Vec<u8>, t2: u64, b2: Vec<u8>) -> (added: bool)
        requires
            old(self).wf(),
        ensures
            final(self).wf(),
            added == old(self).valid(e),
            !added ==> *final(self) == *old(self),
            added ==> exists|mid: World|
                #![trigger add_outcome(*old(self), mid, e, t1, b1@)]
                mid.wf() && add_outcome(*old(self), mid, e, t1, b1@) && add_outcome(mid, *final(self), e, t2, b2@),
            added ==> final(self).valid(e),
    {
        if !self.add_component(e, t1, b1) {
            return false;
        }
        let ghost mid = *self;
        self.add_component(e, t2, b2);
        true
    }

    /// Add three components, `t1`, `t2`, then `t3`, to `e`.
    pub fn add_component3(
        &mut self,
        e: Entity,
        t1: u64,
        b1: Vec<u8>,
        t2: u64,
        b2: Vec<u8>,
        t3: u64,
        b3: Vec<u8>,
    ) -> (added: bool)
        requires
            old(self).wf(),
        ensures
            final(self).wf(),
            added == old(self).valid(e),
            !added ==> *final(self) == *old(self),
            added ==> exists|m1: World, m2: World|
                #![trigger add_outcome(*old(self), m1, e, t1, b1@), add_outcome(m1, m2, e, t2, b2@)]
                m1.wf() && m2.wf() && add_outcome(*old(self), m1, e, t1, b1@) && add_outcome(m1, m2, e, t2, b2@)
                    && add_outcome(m2, *final(self), e, t3, b3@),
            added ==> final(self).valid(e),
    {
        if !self.add_component(e, t1, b1) {
            return false;
        }
        let ghost m1 = *self;
        self.add_component(e, t2, b2);
        let ghost m2 = *self;
        self.add_component(e, t3, b3);
        true
    }

    /// The bytes of `e`'s component `t`; None when `e` is not live or has
    /// no such component.
    pub fn get_component(&self, e: Entity, t: u64) -> (r: Option<&Vec<u8>>)
        requires
            self.wf(),
        ensures
            match r {
                Some(b) => {
                    &&& self.valid(e)
                    &&& self.slots()[bits_index(e.0) as int].location matches Some((a, row)) && {
                        let arch = self.archs()[a as int];
                        &&& arch.keys().contains(t)
                        &&& b@ == arch.cols()[arch.keys().index_of(t)][row as int]
                    }
                },
                None => !self.valid(e) || !keys_of(*self, bits_index(e.0) as int).contains(t),
            },
            r matches Some(b) ==> comp_of(*self, bits_index(e.0) as int, t) == Some(b@),
            self.valid(e) && comp_of(*self, bits_index(e.0) as int, t) is Some ==> r is Some,
    {
        if !self.is_valid(e) {
            return None;
        }
        let i = e.index() as usize;
        match self.slots[i].location {
            Some((a, r)) => {
                match self.archetypes[a].position(t) {
                    Some(c) => Some(self.archetypes[a].cell(c, r)),
                    None => None,
                }
            },
            None => None,
        }
    }

    /// Replace the bytes of `e`'s component `t` in place. False, with
    /// nothing changed, when `e` is not live or has no such component.
    pub fn set_component(&mut self, e: Entity, t: u64, bytes: Vec<u8>) -> (set: bool)
        requires
            old(self).wf(),
        ensures
            final(self).wf(),
            set <==> old(self).valid(e) && comp_of(*old(self), bits_index(e.0) as int, t) is Some,
            !set ==> *final(self) == *old(self),
            set ==> add_outcome(*old(self), *final(self), e, t, bytes@),
            set ==> comp_of(*final(self), bits_index(e.0) as int, t) == Some(bytes@),
            set ==> forall|j: int, k: u64| 0 <= j < old(self).slots().len() && (j != bits_index(e.0) || k != t)
                ==> #[trigger] comp_of(*final(self), j, k) == comp_of(*old(self), j, k),
    {
        if !self.is_valid(e) {
            return false;
        }
        let i = e.index() as usize;
        match self.slots[i].location {
            Some((a, _)) => {
                proof {
                    assert(a < self.archs().len());
                }
                match self.archetypes[a].position(t) {
                    Some(_) => {},
                    None => {
                        return false;
                    },
                }
            },
            None => {
                return false;
            },
        }
        let ghost o = *self;
        let added = self.add_component(e, t, bytes);
        proof {
            law_add_then_get(o, *self, e, t, bytes@);
        }
        added
    }

    /// Every entity with a component `t`, with its bytes, archetype by
    /// archetype in creation order and row by row.
    pub fn query(&self, t: u64) -> (out: Vec<(Entity, Vec<u8>)>)
        requires
            self.wf(),
        ensures
            out@.map_values(|p: (Entity, Vec<u8>)| (p.0, p.1@)) == query_rows(self.archs(), t),
    {
        let mut out: Vec<(Entity, Vec<u8>)> = Vec::new();
        let mut j: usize = 0;
        while j < self.archetypes.len()
            invariant
                j <= self.archs().len(),
                self.wf(),
                out@.map_values(|p: (Entity, Vec<u8>)| (p.0, p.1@)) == query_rows(self.archs().take(j as int), t),
            decreases self.archs().len() - j,
        {
            let ghost before = out@.map_values(|p: (Entity, Vec<u8>)| (p.0, p.1@));
            let ghost a = self.archs()[j as int];
            proof {
                assert(a.wf());
            }
            match self.archetypes[j].position(t) {
                Some(c) => {
                    let n = self.archetypes[j].len();
                    let mut r: usize = 0;
                    while r < n
                        invariant
                            r <= n,
                            n == a.ents().len(),
                            a == self.archs()[j as int],
                            j < self.archs().len(),
                            a.wf(),
                            c < a.keys().len(),
                            a.keys().index_of(t) == c,
                            out@.map_values(|p: (Entity, Vec<u8>)| (p.0, p.1@)) == before + Seq::new(
                                r as nat,
                                |k: int| (a.ents()[k], a.cols()[c as int][k]),
                            ),
                        decreases n - r,
                    {
                        let ent = self.archetypes[j].entity_at(r);
                        let b = copy_bytes(self.archetypes[j].cell(c, r));
                        let ghost prev = out@.map_values(|p: (Entity, Vec<u8>)| (p.0, p.1@));
                        assert(ent == a.ents()[r as int] && b@ == a.cols()[c as int][r as int]);
                        out.push((ent, b));
                        assert(out@.map_values(|p: (Entity, Vec<u8>)| (p.0, p.1@)) =~= prev.push((a.ents()[r as int], a.cols()[c as int][r as int])));
                        r = r + 1;
                        assert(out@.map_values(|p: (Entity, Vec<u8>)| (p.0, p.1@)) =~= before + Seq::new(
                            r as nat,
                            |k: int| (a.ents()[k], a.cols()[c as int][k]),
                        ));
                    }
                    proof {
                        assert(a.keys().contains(t));
                        assert(Seq::new(n as nat, |k: int| (a.ents()[k], a.cols()[c as int][k])) =~= rows_with(a, t));
                    }
                },
                None => {
                    assert(rows_with(a, t) =~= Seq::<(Entity, Seq<u8>)>::empty());
                    assert(before + rows_with(a, t) =~= before);
                },
            }
            proof {
                let tk = self.archs().take(j + 1);
                assert(tk.drop_last() =~= self.archs().take(j as int));
                assert(tk.last() == a);
            }
            j = j + 1;
        }
        assert(self.archs().take(self.archs().len() as int) =~= self.archs());
        out
    }

    /// Every entity with components `t1` and `t2`, with their bytes,
    /// archetype by archetype in creation order and row by row.
    pub fn query2(&self, t1: u64, t2: u64) -> (out: Vec<(Entity, Vec<u8>, Vec<u8>)>)
        requires
            self.wf(),
        ensures
            out@.map_values(|p: (Entity, Vec<u8>, Vec<u8>)| (p.0, p.1@, p.2@)) == query_rows2(self.archs(), t1, t2),
    {
        let mut out: Vec<(Entity, Vec<u8>, Vec<u8>)> = Vec::new();
        let mut j: usize = 0;
        while j < self.archetypes.len()
            invariant
                j <= self.archs().len(),
                self.wf(),
                out@.map_values(|p: (Entity, Vec<u8>, Vec<u8>)| (p.0, p.1@, p.2@)) == query_rows2(self.archs().take(j as int), t1, t2),
            decreases self.archs().len() - j,
        {
            let ghost before = out@.map_values(|p: (Entity, Vec<u8>, Vec<u8>)| (p.0, p.1@, p.2@));
            let ghost a = self.archs()[j as int];
            proof {
                assert(a.wf());
            }
            let p1 = self.archetypes[j].position(t1);
            let p2 = self.archetypes[j].position(t2);
            match (p1, p2) {
                (Some(c1), Some(c2)) => {
                    let n = self.archetypes[j].len();
                    let mut r: usize = 0;
                    while r < n
                        invariant
                            r <= n,
                            n == a.ents().len(),
                            a == self.archs()[j as int],
                            j < self.archs().len(),
                            a.wf(),
                            c1 < a.keys().len(),
                            c2 < a.keys().len(),
                            out@.map_values(|p: (Entity, Vec<u8>, Vec<u8>)| (p.0, p.1@, p.2@)) == before + Seq::new(
                                r as nat,
                                |k: int| (a.ents()[k], a.cols()[c1 as int][k], a.cols()[c2 as int][k]),
                            ),
                        decreases n - r,
                    {
                        let ent = self.archetypes[j].entity_at(r);
                        let x1 = copy_bytes(self.archetypes[j].cell(c1, r));
                        let x2 = copy_bytes(self.archetypes[j].cell(c2, r));
                        let ghost prev = out@.map_values(|p: (Entity, Vec<u8>, Vec<u8>)| (p.0, p.1@, p.2@));
                        assert(ent == a.ents()[r as int] && x1@ == a.cols()[c1 as int][r as int] && x2@ == a.cols()[c2 as int][r as int]);
                        out.push((ent, x1, x2));
                        assert(out@.map_values(|p: (Entity, Vec<u8>, Vec<u8>)| (p.0, p.1@, p.2@)) =~= prev.push(
                            (a.ents()[r as int], a.cols()[c1 as int][r as int], a.cols()[c2 as int][r as int]),
                        ));
                        r = r + 1;
                        assert(out@.map_values(|p: (Entity, Vec<u8>, Vec<u8>)| (p.0, p.1@, p.2@)) =~= before + Seq::new(
                            r as nat,
                            |k: int| (a.ents()[k], a.cols()[c1 as int][k], a.cols()[c2 as int][k]),
                        ));
                    }
                    proof {
                        assert(a.keys().contains(t1) && a.keys().contains(t2));
                        assert(Seq::new(n as nat, |k: int| (a.ents()[k], a.cols()[c1 as int][k], a.cols()[c2 as int][k]))
                            =~= rows_with2(a, t1, t2));
                    }
                },
                _ => {
                    assert(rows_with2(a, t1, t2) =~= Seq::<(Entity, Seq<u8>, Seq<u8>)>::empty());
                    assert(before + rows_with2(a, t1, t2) =~= before);
                },
            }
            proof {
                let tk = self.archs().take(j + 1);
                assert(tk.drop_last() =~= self.archs().take(j as int));
                assert(tk.last() == a);
            }
            j = j + 1;
        }
        assert(self.archs().take(self.archs().len() as int) =~= self.archs());
        out
    }
}

} // verus!
