//! Network layer: cells, nodes, authority and membership.
use vstd::prelude::*;

verus! {

/// Network protocol version.
pub const PROTOCOL_VERSION: u32 = 1;

/// Spatial partition identifier.
#[derive(Debug, Copy, Clone, PartialEq, Eq, Structural, Hash)]
pub struct CellId(pub u64);

/// Server node identifier.
#[derive(Debug, Copy, Clone, PartialEq, Eq, Structural, Hash)]
pub struct NodeId(pub u64);

/// Tick number for rollback.
pub type Tick = u64;

/// Bits of the cell id of grid cell `(x, z)`: `z` in the high half, `x` in
/// the low half.
pub open spec fn cell_bits(x: i32, z: i32) -> u64 {
    (((z as i64) << 32i64) | ((x as i64) & 0xFFFF_FFFFi64)) as u64
}

/// Id of grid cell `(x, z)`: `z` in the high 32 bits, `x` in the low 32.
pub fn cell_id_from_coords(x: i32, z: i32) -> (c: CellId)
    ensures
        c.0 == cell_bits(x, z),
{
    let id = ((z as i64) << 32i64) | ((x as i64) & 0xFFFF_FFFFi64);
    CellId(id as u64)
}

/// Which node owns which cell. Nothing is assigned yet: every lookup finds
/// no owner and assignments are not kept.
pub struct AuthorityMap {}

impl AuthorityMap {
    pub fn new() -> (m: Self) {
        AuthorityMap {}
    }

    /// Owner of `cell`: none.
    pub fn get_authority(&self, cell: CellId) -> (r: Option<NodeId>)
        ensures
            r is None,
    {
        None
    }

    /// Record that `node` owns `cell` (not kept).
    pub fn assign_authority(&mut self, cell: CellId, node: NodeId)
        ensures
            *final(self) == *old(self),
    {
    }
}

/// What the membership protocol believes of a node.
#[derive(Debug, Clone, Copy, PartialEq, Eq, Structural)]
pub enum NodeState {
    Alive,
    Suspected,
    Dead,
}

/// Known nodes and their states.
pub struct MembershipTable {
    nodes: Vec<(NodeId, NodeState)>,
}

impl MembershipTable {
    /// State of each known node.
    pub closed spec fn states(&self) -> Map<NodeId, NodeState> {
        Map::new(
            |n: NodeId| exists|i: int| 0 <= i < self.nodes@.len() && (#[trigger] self.nodes@[i]).0 == n,
            |n: NodeId| self.nodes@[choose|i: int| 0 <= i < self.nodes@.len() && (#[trigger] self.nodes@[i]).0 == n].1,
        )
    }

    pub closed spec fn wf(&self) -> bool {
        forall|i: int, j: int| 0 <= i < j < self.nodes@.len() ==> (#[trigger] self.nodes@[i]).0 != (#[trigger] self.nodes@[j]).0
    }

    proof fn lemma_state_at(&self, i: int)
        requires
            self.wf(),
            0 <= i < self.nodes@.len(),
        ensures
            self.states().contains_key(self.nodes@[i].0),
            self.states()[self.nodes@[i].0] == self.nodes@[i].1,
    {
        let n = self.nodes@[i].0;
        let j = choose|j: int| 0 <= j < self.nodes@.len() && (#[trigger] self.nodes@[j]).0 == n;
        if j != i {
            assert(self.nodes@[j].0 == self.nodes@[i].0);
        }
    }

    pub fn new() -> (t: Self)
        ensures
            t.wf(),
            t.states() == Map::<NodeId, NodeState>::empty(),
    {
        let t = MembershipTable { nodes: Vec::new() };
        assert(t.states() =~= Map::<NodeId, NodeState>::empty());
        t
    }

    fn find(&self, node: NodeId) -> (r: Option<usize>)
        ensures
            match r {
                Some(i) => i < self.nodes@.len() && self.nodes@[i as int].0 == node,
                None => forall|i: int| 0 <= i < self.nodes@.len() ==> (#[trigger] self.nodes@[i]).0 != node,
            },
    {
        let mut i: usize = 0;
        while i < self.nodes.len()
            invariant
                i <= self.nodes@.len(),
                forall|k: int| 0 <= k < i ==> (#[trigger] self.nodes@[k]).0 != node,
            decreases self.nodes@.len() - i,
        {
            if self.nodes[i].0 == node {
                return Some(i);
            }
            i = i + 1;
        }
        None
    }

    /// Set the state of a known node.
    fn set_state(&mut self, node: NodeId, state: NodeState, add: bool)
        requires
            old(self).wf(),
        ensures
            final(self).wf(),
            (add || old(self).states().contains_key(node)) ==> final(self).states() == old(self).states().insert(node, state),
            !(add || old(self).states().contains_key(node)) ==> final(self).states() == old(self).states(),
    {
        match self.find(node) {
            Some(i) => {
                proof {
                    self.lemma_state_at(i as int);
                }
                let ghost before = *self;
                self.nodes.set(i, (node, state));
                proof {
                    assert forall|a: int, b: int| 0 <= a < b < self.nodes@.len() implies (#[trigger] self.nodes@[a]).0
                        != (#[trigger] self.nodes@[b]).0 by {
                        assert(before.nodes@[a].0 == self.nodes@[a].0);
                        assert(before.nodes@[b].0 == self.nodes@[b].0);
                    }
                    assert forall|n: NodeId| #[trigger] self.states().contains_key(n) == before.states().insert(node, state).contains_key(n) by {
                        if before.states().contains_key(n) {
                            let j = choose|j: int| 0 <= j < before.nodes@.len() && (#[trigger] before.nodes@[j]).0 == n;
                            assert(self.nodes@[j].0 == n);
                        }
                        if self.states().contains_key(n) {
                            let j = choose|j: int| 0 <= j < self.nodes@.len() && (#[trigger] self.nodes@[j]).0 == n;
                            assert(before.nodes@[j].0 == n);
                        }
                    }
                    assert forall|n: NodeId| #[trigger] self.states().contains_key(n) implies self.states()[n]
                        == before.states().insert(node, state)[n] by {
                        let j = choose|j: int| 0 <= j < self.nodes@.len() && (#[trigger] self.nodes@[j]).0 == n;
                        self.lemma_state_at(j);
                        if n != node {
                            before.lemma_state_at(j);
                        }
                    }
                    assert(self.states() =~= before.states().insert(node, state));
                }
            },
            None => {
                if add {
                    let ghost before = *self;
                    self.nodes.push((node, state));
                    proof {
                        assert forall|a: int, b: int| 0 <= a < b < self.nodes@.len() implies (#[trigger] self.nodes@[a]).0
                            != (#[trigger] self.nodes@[b]).0 by {
                            assert(self.nodes@[a] == before.nodes@[a]);
                        }
                        let last = self.nodes@.len() - 1;
                        assert(self.nodes@[last].0 == node);
                        assert forall|n: NodeId| #[trigger] self.states().contains_key(n) == before.states().insert(node, state).contains_key(n) by {
                            if before.states().contains_key(n) {
                                let j = choose|j: int| 0 <= j < before.nodes@.len() && (#[trigger] before.nodes@[j]).0 == n;
                                assert(self.nodes@[j].0 == n);
                            }
                            if self.states().contains_key(n) && n != node {
                                let j = choose|j: int| 0 <= j < self.nodes@.len() && (#[trigger] self.nodes@[j]).0 == n;
                                assert(before.nodes@[j].0 == n);
                            }
                        }
                        assert forall|n: NodeId| #[trigger] self.states().contains_key(n) implies self.states()[n]
                            == before.states().insert(node, state)[n] by {
                            let j = choose|j: int| 0 <= j < self.nodes@.len() && (#[trigger] self.nodes@[j]).0 == n;
                            self.lemma_state_at(j);
                            if n != node {
                                before.lemma_state_at(j);
                            }
                        }
                        assert(self.states() =~= before.states().insert(node, state));
                    }
                } else {
                    proof {
                        assert(!self.states().contains_key(node));
                    }
                }
            },
        }
    }

    /// Add `node` as alive (or mark a known node alive again).
    pub fn add_node(&mut self, node: NodeId)
        requires
            old(self).wf(),
        ensures
            final(self).wf(),
            final(self).states() == old(self).states().insert(node, NodeState::Alive),
    {
        self.set_state(node, NodeState::Alive, true);
    }

    /// Mark a known node suspected; unknown nodes are ignored.
    pub fn mark_suspected(&mut self, node: NodeId)
        requires
            old(self).wf(),
        ensures
            final(self).wf(),
            final(self).states() == if old(self).states().contains_key(node) {
                old(self).states().insert(node, NodeState::Suspected)
            } else {
                old(self).states()
            },
    {
        self.set_state(node, NodeState::Suspected, false);
    }

    /// Mark a known node dead; unknown nodes are ignored.
    pub fn mark_dead(&mut self, node: NodeId)
        requires
            old(self).wf(),
        ensures
            final(self).wf(),
            final(self).states() == if old(self).states().contains_key(node) {
                old(self).states().insert(node, NodeState::Dead)
            } else {
                old(self).states()
            },
    {
        self.set_state(node, NodeState::Dead, false);
    }

    /// The alive nodes, each once.
    pub fn alive_nodes(&self) -> (v: Vec<NodeId>)
        requires
            self.wf(),
        ensures
            forall|n: NodeId| v@.contains(n) <==> (self.states().contains_key(n) && self.states()[n] == NodeState::Alive),
            v@.no_duplicates(),
    {
        let mut v: Vec<NodeId> = Vec::new();
        let mut i: usize = 0;
        while i < self.nodes.len()
            invariant
                i <= self.nodes@.len(),
                v@ == alive_ids(self.nodes@.take(i as int)),
            decreases self.nodes@.len() - i,
        {
            let (id, state) = self.nodes[i];
            proof {
                assert(self.nodes@.take(i + 1).drop_last() =~= self.nodes@.take(i as int));
            }
            if state == NodeState::Alive {
                v.push(id);
            }
            i = i + 1;
        }
        proof {
            assert(self.nodes@.take(i as int) =~= self.nodes@);
            lemma_alive_ids(self.nodes@);
            assert forall|n: NodeId| v@.contains(n) <==> (self.states().contains_key(n) && self.states()[n] == NodeState::Alive) by {
                if v@.contains(n) {
                    let k = choose|k: int| 0 <= k < self.nodes@.len() && (#[trigger] self.nodes@[k]).0 == n && self.nodes@[k].1
                        == NodeState::Alive;
                    self.lemma_state_at(k);
                }
                if self.states().contains_key(n) && self.states()[n] == NodeState::Alive {
                    let k = choose|k: int| 0 <= k < self.nodes@.len() && (#[trigger] self.nodes@[k]).0 == n;
                    self.lemma_state_at(k);
                }
            }
        }
        v
    }
}

/// Ids of the alive entries of `s`, in order.
pub open spec fn alive_ids(s: Seq<(NodeId, NodeState)>) -> Seq<NodeId>
    decreases s.len(),
{
    if s.len() == 0 {
        Seq::empty()
    } else if s.last().1 == NodeState::Alive {
        alive_ids(s.drop_last()).push(s.last().0)
    } else {
        alive_ids(s.drop_last())
    }
}

proof fn lemma_alive_ids(s: Seq<(NodeId, NodeState)>)
    requires
        forall|i: int, j: int| 0 <= i < j < s.len() ==> (#[trigger] s[i]).0 != (#[trigger] s[j]).0,
    ensures
        forall|n: NodeId| alive_ids(s).contains(n) <==> exists|k: int| 0 <= k < s.len() && (#[trigger] s[k]).0 == n && s[k].1
            == NodeState::Alive,
        alive_ids(s).no_duplicates(),
    decreases s.len(),
{
    if s.len() > 0 {
        let d = s.drop_last();
        assert forall|i: int, j: int| 0 <= i < j < d.len() implies (#[trigger] d[i]).0 != (#[trigger] d[j]).0 by {
            assert(d[i] == s[i] && d[j] == s[j]);
        }
        lemma_alive_ids(d);
        let last = s.len() - 1;
        assert forall|n: NodeId| alive_ids(s).contains(n) <==> exists|k: int| 0 <= k < s.len() && (#[trigger] s[k]).0 == n
            && s[k].1 == NodeState::Alive by {
            if alive_ids(d).contains(n) {
                let k = choose|k: int| 0 <= k < d.len() && (#[trigger] d[k]).0 == n && d[k].1 == NodeState::Alive;
                assert(s[k] == d[k]);
            }
            if exists|k: int| 0 <= k < s.len() && (#[trigger] s[k]).0 == n && s[k].1 == NodeState::Alive {
                let k = choose|k: int| 0 <= k < s.len() && (#[trigger] s[k]).0 == n && s[k].1 == NodeState::Alive;
                if k < last {
                    assert(d[k] == s[k]);
                    assert(alive_ids(d).contains(n));
                    if s.last().1 == NodeState::Alive {
                        let j = choose|j: int| 0 <= j < alive_ids(d).len() && alive_ids(d)[j] == n;
                        assert(alive_ids(s)[j] == n);
                    }
                } else {
                    assert(s[k] == s.last());
                    let a = alive_ids(s);
                    assert(a[a.len() - 1] == n);
                }
            }
            if s.last().1 == NodeState::Alive {
                let a = alive_ids(d).push(s.last().0);
                if a.contains(n) && !alive_ids(d).contains(n) {
                    let j = choose|j: int| 0 <= j < a.len() && a[j] == n;
                    if j < a.len() - 1 {
                        assert(alive_ids(d)[j] == n);
                    }
                    assert(s[last].0 == n);
                }
                if alive_ids(d).contains(n) {
                    let j = choose|j: int| 0 <= j < alive_ids(d).len() && alive_ids(d)[j] == n;
                    assert(a[j] == n);
                }
            }
        }
        if s.last().1 == NodeState::Alive {
            if alive_ids(d).contains(s.last().0) {
                let k = choose|k: int| 0 <= k < d.len() && (#[trigger] d[k]).0 == s.last().0 && d[k].1 == NodeState::Alive;
                assert(s[k].0 == s[last].0);
            }
        }
    }
}

/// Input buffer for rollback, `buffer_size` ticks deep.
pub struct InputBuffer {
    buffer_size: usize,
}

impl InputBuffer {
    pub closed spec fn spec_buffer_size(&self) -> usize {
        self.buffer_size
    }

    pub fn new(buffer_size: usize) -> (b: Self)
        ensures
            b.spec_buffer_size() == buffer_size,
    {
        InputBuffer { buffer_size }
    }
}

} // verus!
