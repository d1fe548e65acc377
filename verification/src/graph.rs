//! The multi-layer proximity graph: every inserted vector owns one node with
//! a maximum layer drawn at insertion, layer 0 contains every node, and the
//! layers above are sparser "highways". Nodes point at each other by slot
//! (insertion position in the vector store).

use vstd::prelude::*;

verus! {

/// One node of the graph: its maximum layer and, for each layer from 0 up to
/// that maximum, the slots of its neighbors there.
pub struct Node {
    /// The highest layer this node takes part in.
    pub level: usize,
    /// `lists[l]` holds the neighbor slots at layer `l`; one list per layer
    /// from 0 to `level`.
    pub lists: Vec<Vec<usize>>,
}

/// The spec-level shape of a node: its layer and its neighbor lists.
pub ghost struct NodeShape {
    /// The node's highest layer.
    pub level: nat,
    /// Neighbor slots per layer, bottom first.
    pub lists: Seq<Seq<usize>>,
}

impl Node {
    /// The node's shape: what persistence must reproduce.
    pub open spec fn shape(self) -> NodeShape {
        NodeShape {
            level: self.level as nat,
            lists: Seq::new(self.lists@.len(), |l: int| self.lists@[l]@),
        }
    }
}

/// The multi-layer graph over all stored slots, plus the entry point used to
/// start every descent.
pub struct NavigableGraph {
    /// One node per stored slot, in slot order.
    pub nodes: Vec<Node>,
    /// The slot whose node has the highest layer, absent only while the
    /// graph is empty.
    pub entry: Option<usize>,
}

/// The neighbor-count bound of a layer: `m0` on layer 0, `m` above.
pub open spec fn layer_bound(l: int, m: nat, m0: nat) -> nat {
    if l == 0 {
        m0
    } else {
        m
    }
}

impl NavigableGraph {
    /// Link soundness of one node: one list per layer from 0 to its level,
    /// and every entry a valid slot whose node reaches that layer.
    pub open spec fn node_valid(self, s: int) -> bool {
        let nd = self.nodes@[s];
        &&& nd.lists@.len() == nd.level + 1
        &&& forall|l: int, j: int|
            0 <= l <= nd.level && 0 <= j < nd.lists@[l]@.len() ==> {
                let e = (#[trigger] nd.lists@[l]@[j]);
                &&& e < self.nodes@.len()
                &&& self.nodes@[e as int].level >= l
            }
    }

    /// Every neighbor list of node `s` stays within its layer's bound.
    pub open spec fn node_bounded(self, s: int, m: nat, m0: nat) -> bool {
        let nd = self.nodes@[s];
        forall|l: int|
            0 <= l <= nd.level ==> (#[trigger] nd.lists@[l])@.len() <= layer_bound(l, m, m0)
    }

    /// Link soundness of the whole graph: one node per slot, every node's
    /// links valid, and the entry point present exactly when the graph is
    /// non-empty and sitting on a highest-layer node.
    pub open spec fn valid(self, n_slots: nat) -> bool {
        &&& self.nodes@.len() == n_slots
        &&& forall|s: int| 0 <= s < n_slots ==> self.node_valid(s)
        &&& match self.entry {
            Some(e) => n_slots > 0 && e < n_slots && forall|s: int|
                0 <= s < n_slots ==> (#[trigger] self.nodes@[s].level)
                    <= self.nodes@[e as int].level,
            None => n_slots == 0,
        }
    }

    /// Full structural soundness: valid links and bounded neighbor lists.
    pub open spec fn wf(self, n_slots: nat, m: nat, m0: nat) -> bool {
        &&& self.valid(n_slots)
        &&& forall|s: int| 0 <= s < n_slots ==> self.node_bounded(s, m, m0)
    }

    /// The graph's shape, node by node, plus the entry slot: what
    /// persistence must reproduce.
    pub open spec fn shape(self) -> Seq<NodeShape> {
        Seq::new(self.nodes@.len(), |s: int| self.nodes@[s].shape())
    }

    /// An empty graph.
    pub fn new() -> (g: NavigableGraph)
        ensures
            forall|m: nat, m0: nat| g.wf(0, m, m0),
            g.nodes@.len() == 0,
            g.entry.is_none(),
    {
        NavigableGraph { nodes: Vec::new(), entry: None }
    }

    /// Appends a node with the given layer and one empty neighbor list per
    /// layer from 0 to that layer, and moves the entry point onto it when it
    /// reaches higher than the current entry point (or the graph was empty).
    pub(crate) fn attach_node(&mut self, level: usize, Ghost(n): Ghost<nat>)
        requires
            old(self).valid(n),
            level < usize::MAX,
        ensures
            final (self).valid(n + 1),
            final (self).nodes@.len() == n + 1,
            forall|t: int| 0 <= t < n ==> final (self).nodes@[t] == old(self).nodes@[t],
            final (self).nodes@[n as int].level == level,
            final (self).nodes@[n as int].lists@.len() == level + 1,
            forall|l: int|
                0 <= l <= level ==> (#[trigger] final (self).nodes@[n as int].lists@[l])@.len()
                    == 0,
            final (self).entry == (match old(self).entry {
                Some(e) => if level > old(self).nodes@[e as int].level {
                    Some(n as usize)
                } else {
                    Some(e)
                },
                None => Some(n as usize),
            }),
    {
        let mut lists: Vec<Vec<usize>> = Vec::new();
        let mut l: usize = 0;
        while l < level + 1
            invariant
                level < usize::MAX,
                0 <= l <= level + 1,
                lists@.len() == l,
                forall|t: int| 0 <= t < l ==> (#[trigger] lists@[t])@.len() == 0,
            decreases level + 1 - l,
        {
            lists.push(Vec::new());
            l = l + 1;
        }
        let ns = self.nodes.len();
        self.nodes.push(Node { level, lists });
        match self.entry {
            Some(e) => {
                let etop = self.nodes[e].level;
                if level > etop {
                    self.entry = Some(ns);
                }
            },
            None => {
                self.entry = Some(ns);
            },
        }
        proof {
            assert forall|s: int| 0 <= s < n + 1 implies self.node_valid(s) by {
                if s < n {
                    assert(old(self).node_valid(s));
                    assert(self.nodes@[s] == old(self).nodes@[s]);
                }
            }
        }
    }

    /// Replaces the neighbor list of slot `s` at layer `l` with one whose
    /// entries are themselves valid; everything else stays as it was.
    pub(crate) fn set_list(&mut self, s: usize, l: usize, list: Vec<usize>, Ghost(n): Ghost<nat>)
        requires
            old(self).valid(n),
            s < n,
            l <= old(self).nodes@[s as int].level,
            forall|j: int|
                0 <= j < list@.len() ==> (#[trigger] list@[j]) < n && old(self).nodes@[list@[j] as int].level
                    >= l,
        ensures
            final (self).valid(n),
            final (self).nodes@.len() == old(self).nodes@.len(),
            forall|t: int|
                0 <= t < old(self).nodes@.len() && t != s ==> final (self).nodes@[t] == old(
                    self,
                ).nodes@[t],
            final (self).nodes@[s as int].level == old(self).nodes@[s as int].level,
            final (self).nodes@[s as int].lists@.len() == old(self).nodes@[s as int].lists@.len(),
            forall|t: int|
                0 <= t < old(self).nodes@[s as int].lists@.len() && t != l ==> final (
                self).nodes@[s as int].lists@[t] == old(self).nodes@[s as int].lists@[t],
            final (self).nodes@[s as int].lists@[l as int]@ == list@,
            final (self).entry == old(self).entry,
    {
        proof {
            assert(old(self).node_valid(s as int));
        }
        let nd = &mut self.nodes[s];
        let slot = &mut nd.lists[l];
        *slot = list;
        proof {
            assert forall|t: int| 0 <= t < n implies self.node_valid(t) by {
                assert(old(self).node_valid(t));
                assert forall|e: int|
                    0 <= e < n implies #[trigger] self.nodes@[e].level == old(
                    self,
                ).nodes@[e].level by {}
                if t != s {
                    assert(self.nodes@[t] == old(self).nodes@[t]);
                }
            }
        }
    }

    /// Appends `e`, itself a valid node of layer `l`, to the neighbor list
    /// of slot `s` at layer `l`; everything else stays as it was.
    pub(crate) fn push_link(&mut self, s: usize, l: usize, e: usize, Ghost(n): Ghost<nat>)
        requires
            old(self).valid(n),
            s < n,
            l <= old(self).nodes@[s as int].level,
            old(self).nodes@[s as int].lists@[l as int]@.len() < usize::MAX,
            e < n,
            old(self).nodes@[e as int].level >= l,
        ensures
            final (self).valid(n),
            final (self).nodes@.len() == old(self).nodes@.len(),
            forall|t: int|
                0 <= t < old(self).nodes@.len() && t != s ==> final (self).nodes@[t] == old(
                    self,
                ).nodes@[t],
            final (self).nodes@[s as int].level == old(self).nodes@[s as int].level,
            final (self).nodes@[s as int].lists@.len() == old(self).nodes@[s as int].lists@.len(),
            forall|t: int|
                0 <= t < old(self).nodes@[s as int].lists@.len() && t != l ==> final (
                self).nodes@[s as int].lists@[t] == old(self).nodes@[s as int].lists@[t],
            final (self).nodes@[s as int].lists@[l as int]@ == old(
                self,
            ).nodes@[s as int].lists@[l as int]@.push(e),
            final (self).entry == old(self).entry,
    {
        proof {
            assert(old(self).node_valid(s as int));
        }
        let nd = &mut self.nodes[s];
        let slot = &mut nd.lists[l];
        slot.push(e);
        proof {
            assert forall|t: int| 0 <= t < n implies self.node_valid(t) by {
                assert(old(self).node_valid(t));
                assert forall|ee: int|
                    0 <= ee < n implies #[trigger] self.nodes@[ee].level == old(
                    self,
                ).nodes@[ee].level by {}
                if t != s {
                    assert(self.nodes@[t] == old(self).nodes@[t]);
                } else {
                    let older = old(self).nodes@[s as int].lists@[l as int]@;
                    assert forall|ll: int, j: int|
                        0 <= ll <= self.nodes@[t].level && 0 <= j
                            < self.nodes@[t].lists@[ll]@.len() implies {
                        let x = (#[trigger] self.nodes@[t].lists@[ll]@[j]);
                        x < n && self.nodes@[x as int].level >= ll
                    } by {
                        if ll == l && j == older.len() {
                        } else {
                            assert(old(self).nodes@[t].lists@[ll]@[j]
                                == self.nodes@[t].lists@[ll]@[j]);
                        }
                    }
                }
            }
        }
    }

    /// The highest layer of slot `s`.
    pub fn level_of(&self, s: usize) -> (l: usize)
        requires
            s < self.nodes@.len(),
        ensures
            l == self.nodes@[s as int].level,
    {
        self.nodes[s].level
    }

    /// The neighbor list of slot `s` at layer `l`.
    pub fn list_at(&self, s: usize, l: usize) -> (list: &Vec<usize>)
        requires
            s < self.nodes@.len(),
            l < self.nodes@[s as int].lists@.len(),
        ensures
            list@ == self.nodes@[s as int].lists@[l as int]@,
    {
        &self.nodes[s].lists[l]
    }
}

} // verus!
