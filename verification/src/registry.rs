//! The node registry: an append-only store of growable nodes with stable
//! integer identities and a parent/child forest over them.
//!
//! Identities are indices into the store. Nothing is ever removed or
//! reindexed, so an identity handed out once stays valid forever; the only
//! destructive mutation anywhere is clearing the `alive` flag.

use vstd::prelude::*;
use crate::rng::Rng;
use crate::rng::rng_seed_state;

verus! {

/// Raw fixed-point bound on every stored coordinate. Generous: the growth
/// domain ends at 450 world units, this allows over eight thousand.
pub const COORD_LIMIT: i64 = 536870912;

/// Largest node radius (in world units) the registry accepts at creation,
/// chosen so that every squared-distance comparison fits in 64 bits.
pub const SIZE_LIMIT: i64 = 10000;

/// Mathematical model of one node.
#[verifier::ext_equal]
pub ghost struct NodeModel {
    /// Fixed-point position.
    pub x: int,
    pub y: int,
    /// Radius in world units; never decreases after creation.
    pub size: int,
    /// Accumulator driving branch and growth decisions.
    pub energy: int,
    /// Color fraction fixed at creation: the branch angle over a half turn,
    /// fixed-point. Read only by the renderer.
    pub frac: int,
    /// Cleared once and forever when the node collides, hits the growth
    /// ceiling, or is suppressed.
    pub alive: bool,
    /// Per-step flag: eligible for the growth/collision phase this step.
    pub grown: bool,
    /// Depth from the root that seeded this tree.
    pub generation: int,
    /// Identity of the spawning node; `None` for roots.
    pub parent: Option<int>,
    /// Identities this node has spawned, in spawn order.
    pub children: Seq<int>,
}

/// Mathematical model of the whole registry: the node sequence and the
/// state of the deterministic random stream.
#[verifier::ext_equal]
pub ghost struct RegistryModel {
    pub nodes: Seq<NodeModel>,
    pub rng: u64,
}

/// One growable node.
#[derive(Clone, Debug, PartialEq)]
pub struct Node {
    pub x: i64,
    pub y: i64,
    pub size: i64,
    pub energy: i64,
    pub frac: i64,
    pub alive: bool,
    pub grown: bool,
    pub generation: usize,
    pub parent: Option<usize>,
    pub children: Vec<usize>,
}

impl View for Node {
    type V = NodeModel;

    open spec fn view(&self) -> NodeModel {
        NodeModel {
            x: self.x as int,
            y: self.y as int,
            size: self.size as int,
            energy: self.energy as int,
            frac: self.frac as int,
            alive: self.alive,
            grown: self.grown,
            generation: self.generation as int,
            parent: match self.parent {
                Some(p) => Some(p as int),
                None => None,
            },
            children: self.children@.map_values(|c: usize| c as int),
        }
    }
}

/// The append-only node store plus the random stream that future branch
/// attempts will consume.
#[derive(Clone, Debug)]
pub struct Registry {
    pub nodes: Vec<Node>,
    pub rng: Rng,
}

impl View for Registry {
    type V = RegistryModel;

    open spec fn view(&self) -> RegistryModel {
        RegistryModel {
            nodes: self.nodes@.map_values(|n: Node| n@),
            rng: self.rng.state,
        }
    }
}

/// Everything `node_ok` asks of a single entry: bounded geometry, and the
/// forest structure. A parent always has a smaller identity than its child
/// (children are appended after their parent), which is what makes the
/// parent/child relation acyclic; generations count depth exactly; and the
/// parent/child edges agree in both directions.
pub open spec fn node_ok(s: Seq<NodeModel>, i: int) -> bool {
    let n = s[i];
    &&& -COORD_LIMIT <= n.x <= COORD_LIMIT
    &&& -COORD_LIMIT <= n.y <= COORD_LIMIT
    &&& 1 <= n.size <= SIZE_LIMIT
    &&& 0 <= n.generation <= i
    &&& match n.parent {
        Some(p) => 0 <= p < i && n.generation == s[p].generation + 1 && s[p].children.contains(i),
        None => n.generation == 0,
    }
    &&& forall|k: int|
        0 <= k < n.children.len() ==> i < #[trigger] n.children[k] < s.len() && s[n.children[k]].parent == Some(i)
    &&& forall|k1: int, k2: int|
        0 <= k1 < k2 < n.children.len() ==> #[trigger] n.children[k1] < #[trigger] n.children[k2]
}

/// Well-formedness of the whole store.
pub open spec fn wf_nodes(s: Seq<NodeModel>) -> bool {
    forall|i: int| 0 <= i < s.len() ==> #[trigger] node_ok(s, i)
}

/// The node every tree starts from: the seed point of the simulation.
pub open spec fn root_node_model() -> NodeModel {
    NodeModel {
        x: 0,
        y: 0,
        size: 1,
        energy: 0,
        frac: 0,
        alive: true,
        grown: false,
        generation: 0,
        parent: None,
        children: Seq::empty(),
    }
}

/// What `append_child` does to the model: register the fresh identity with
/// the parent and append the new node, one generation deeper.
pub open spec fn append_child_model(
    m: RegistryModel,
    parent: int,
    x: int,
    y: int,
    size: int,
    frac: int,
) -> RegistryModel {
    let id = m.nodes.len() as int;
    let p = m.nodes[parent];
    let child = NodeModel {
        x: x,
        y: y,
        size: size,
        energy: 0,
        frac: frac,
        alive: true,
        grown: false,
        generation: p.generation + 1,
        parent: Some(parent),
        children: Seq::empty(),
    };
    RegistryModel {
        nodes: m.nodes.update(parent, NodeModel { children: p.children.push(id), ..p }).push(child),
        rng: m.rng,
    }
}

/// Appending a child preserves well-formedness.
pub proof fn lemma_wf_append(m: RegistryModel, parent: int, x: int, y: int, size: int, frac: int)
    requires
        wf_nodes(m.nodes),
        0 <= parent < m.nodes.len(),
        -536870912 <= x <= 536870912,
        -536870912 <= y <= 536870912,
        1 <= size <= 10000,
    ensures
        wf_nodes(append_child_model(m, parent, x, y, size, frac).nodes),
        append_child_model(m, parent, x, y, size, frac).nodes.len() == m.nodes.len() + 1,
{
    let s = m.nodes;
    let id = s.len() as int;
    let s2 = append_child_model(m, parent, x, y, size, frac).nodes;
    assert(node_ok(s, parent));
    assert forall|i: int| 0 <= i < s2.len() implies #[trigger] node_ok(s2, i) by {
        if i == id {
            assert(s2[parent].children == s[parent].children.push(id));
            assert(s2[parent].children[s[parent].children.len() as int] == id);
            assert(s2[parent].children.contains(id));
            assert(node_ok(s, parent));
        } else {
            assert(node_ok(s, i));
            let n = s[i];
            if i == parent {
                assert forall|k: int| 0 <= k < s2[i].children.len() implies
                    i < #[trigger] s2[i].children[k] < s2.len() && s2[s2[i].children[k]].parent == Some(i) by {
                    if k < n.children.len() {
                        assert(s2[i].children[k] == n.children[k]);
                    } else {
                        assert(s2[i].children[k] == id);
                    }
                }
                assert forall|k1: int, k2: int| 0 <= k1 < k2 < s2[i].children.len() implies
                    #[trigger] s2[i].children[k1] < #[trigger] s2[i].children[k2] by {
                    if k2 < n.children.len() {
                    } else {
                        assert(s2[i].children[k2] == id);
                        assert(i < n.children[k1] < s.len());
                    }
                }
                match n.parent {
                    Some(pp) => {
                        assert(s[pp].children.contains(i));
                        let w = choose|w: int| 0 <= w < s[pp].children.len() && s[pp].children[w] == i;
                        assert(s2[pp].children == s[pp].children);
                        assert(s2[pp].children[w] == i);
                        assert(s2[pp].children.contains(i));
                    },
                    None => {},
                }
            } else {
                match n.parent {
                    Some(pp) => {
                        assert(s[pp].children.contains(i));
                        let w = choose|w: int| 0 <= w < s[pp].children.len() && s[pp].children[w] == i;
                        if pp == parent {
                            assert(s2[pp].children == s[pp].children.push(id));
                            assert(s2[pp].children[w] == i);
                        } else {
                            assert(s2[pp].children == s[pp].children);
                            assert(s2[pp].children[w] == i);
                        }
                        assert(s2[pp].children.contains(i));
                    },
                    None => {},
                }
                assert forall|k: int| 0 <= k < s2[i].children.len() implies
                    i < #[trigger] s2[i].children[k] < s2.len() && s2[s2[i].children[k]].parent == Some(i) by {
                    assert(s2[i].children[k] == n.children[k]);
                    assert(i < n.children[k] < s.len());
                }
            }
        }
    }
}

impl Registry {
    /// Well-formedness of the registry: the forest invariants over the store.
    pub open spec fn wf(&self) -> bool {
        wf_nodes(self@.nodes)
    }

    /// An empty registry whose stream starts from `seed`.
    pub fn new(seed: u64) -> (r: Registry)
        ensures
            r@.nodes.len() == 0,
            r@.rng == rng_seed_state(seed),
            wf_nodes(r@.nodes),
    {
        let r = Registry { nodes: Vec::new(), rng: Rng::new(seed) };
        proof {
            assert(r@.nodes =~= Seq::<NodeModel>::empty());
        }
        r
    }

    /// How many nodes exist. Identities are exactly `0 .. len()`.
    pub fn len(&self) -> (n: usize)
        ensures
            n == self@.nodes.len(),
    {
        self.nodes.len()
    }

    /// Read a node by identity. An identity out of range is a programmer
    /// error, ruled out by the precondition.
    pub fn get(&self, id: usize) -> (n: &Node)
        requires
            id < self@.nodes.len(),
        ensures
            n@ == self@.nodes[id as int],
    {
        &self.nodes[id]
    }

    /// Borrow a node mutably by identity.
    pub fn get_mut(&mut self, id: usize) -> (n: &mut Node)
        requires
            id < old(self)@.nodes.len(),
        ensures
            *n == old(self).nodes@[id as int],
            final(self).nodes@ == old(self).nodes@.update(id as int, *final(n)),
            final(self).rng == old(self).rng,
    {
        &mut self.nodes[id]
    }

    /// Insert a root: no parent, generation zero, unit size, no energy, at
    /// the origin. Returns its identity.
    pub fn create_root(&mut self) -> (id: usize)
        requires
            wf_nodes(old(self)@.nodes),
        ensures
            id == old(self)@.nodes.len(),
            final(self)@.nodes == old(self)@.nodes.push(root_node_model()),
            final(self)@.rng == old(self)@.rng,
            wf_nodes(final(self)@.nodes),
    {
        let id = self.nodes.len();
        let root = Node {
            x: 0,
            y: 0,
            size: 1,
            energy: 0,
            frac: 0,
            alive: true,
            grown: false,
            generation: 0,
            parent: None,
            children: Vec::new(),
        };
        self.nodes.push(root);
        proof {
            assert(root_node_model().children =~= Seq::<int>::empty());
            assert(self@.nodes =~~= old(self)@.nodes.push(root_node_model()));
            let s2 = self@.nodes;
            assert forall|i: int| 0 <= i < s2.len() implies #[trigger] node_ok(s2, i) by {
                if i < id {
                    assert(node_ok(old(self)@.nodes, i));
                    let n = old(self)@.nodes[i];
                    match n.parent {
                        Some(pp) => {
                            let s = old(self)@.nodes;
                            assert(s[pp].children.contains(i));
                            let w = choose|w: int| 0 <= w < s[pp].children.len() && s[pp].children[w] == i;
                            assert(s2[pp].children[w] == i);
                            assert(s2[pp].children.contains(i));
                        },
                        None => {},
                    }
                }
            }
        }
        id
    }

    /// Insert a new child of `parent`: one generation deeper, registered in
    /// the parent's child list, fresh identity returned. Referencing a
    /// parent that does not exist is a programmer error, ruled out by the
    /// precondition; the geometric bounds are the machine limits of the
    /// fixed-point representation.
    pub fn append_child(&mut self, parent: usize, x: i64, y: i64, size: i64, frac: i64) -> (id: usize)
        requires
            wf_nodes(old(self)@.nodes),
            parent < old(self)@.nodes.len(),
            -COORD_LIMIT <= x <= COORD_LIMIT,
            -COORD_LIMIT <= y <= COORD_LIMIT,
            1 <= size <= SIZE_LIMIT,
        ensures
            id == old(self)@.nodes.len(),
            final(self)@ == append_child_model(old(self)@, parent as int, x as int, y as int, size as int, frac as int),
            wf_nodes(final(self)@.nodes),
    {
        proof {
            lemma_wf_append(old(self)@, parent as int, x as int, y as int, size as int, frac as int);
            assert(node_ok(old(self)@.nodes, parent as int));
        }
        let id = self.nodes.len();
        let generation = self.nodes[parent].generation + 1;
        let child = Node {
            x: x,
            y: y,
            size: size,
            energy: 0,
            frac: frac,
            alive: true,
            grown: false,
            generation: generation,
            parent: Some(parent),
            children: Vec::new(),
        };
        let p = &mut self.nodes[parent];
        p.children.push(id);
        self.nodes.push(child);
        proof {
            assert(child@.children =~= Seq::<int>::empty());
            assert(self@.nodes =~~= append_child_model(
                old(self)@, parent as int, x as int, y as int, size as int, frac as int).nodes);
            assert(self@ =~~= append_child_model(
                old(self)@, parent as int, x as int, y as int, size as int, frac as int));
        }
        id
    }
}

} // verus!
