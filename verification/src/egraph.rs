//! The e-graph that extraction reads: nodes, the classes they are grouped in,
//! and the root classes.

use vstd::prelude::*;
use crate::cost::Cost;

verus! {

/// A class is named by its position in `EGraph::classes`.
pub type ClassId = usize;

/// A node is named by its position in `EGraph::nodes`.
pub type NodeId = usize;

/// One operation: what it costs by itself, the class it belongs to, and the
/// classes of its operands, in order. A class may occur more than once among
/// the children.
pub struct Node {
    pub cost: Cost,
    pub eclass: ClassId,
    pub children: Vec<ClassId>,
}

impl Node {
    /// A leaf has no children.
    pub fn is_leaf(&self) -> (leaf: bool)
        ensures
            leaf == (self.children@.len() == 0),
    {
        self.children.len() == 0
    }
}

/// The nodes that are interchangeable with each other.
pub struct Class {
    pub nodes: Vec<NodeId>,
}

/// An e-graph. Extraction only reads it.
pub struct EGraph {
    pub nodes: Vec<Node>,
    pub classes: Vec<Class>,
    pub root_eclasses: Vec<ClassId>,
}

/// The graph names a class or a node that it does not have, lists a node
/// under a class other than its own, or has an empty class.
#[derive(Debug, PartialEq, Eq, Clone, Copy)]
pub struct MalformedGraph;

impl EGraph {
    /// Class `c` lists node `n` among its first `upto` members.
    pub open spec fn listed_in(&self, c: int, n: int, upto: int) -> bool {
        exists|i: int| 0 <= i < upto && #[trigger] self.classes@[c].nodes@[i] == n
    }

    /// One of the first `upto` classes lists node `n`.
    pub open spec fn listed(&self, n: int, upto: int) -> bool {
        exists|c: int|
            0 <= c < upto && #[trigger] self.listed_in(c, n, self.classes@[c].nodes@.len() as int)
    }

    /// Node `n` names classes that exist, and its own class lists it.
    pub open spec fn node_ok(&self, n: int) -> bool {
        let node = self.nodes@[n];
        &&& node.eclass < self.classes@.len()
        &&& self.listed_in(
            node.eclass as int,
            n,
            self.classes@[node.eclass as int].nodes@.len() as int,
        )
        &&& forall|i: int|
            0 <= i < node.children@.len() ==> #[trigger] node.children@[i] < self.classes@.len()
    }

    /// Class `c` is not empty, and each member is a node of this class.
    pub open spec fn class_ok(&self, c: int) -> bool {
        let members = self.classes@[c].nodes@;
        &&& members.len() > 0
        &&& forall|i: int|
            0 <= i < members.len() ==> {
                &&& #[trigger] members[i] < self.nodes@.len()
                &&& self.nodes@[members[i] as int].eclass == c
            }
    }

    /// Every reference resolves: the graph is fit for extraction.
    pub open spec fn wf(&self) -> bool {
        &&& forall|n: int| 0 <= n < self.nodes@.len() ==> #[trigger] self.node_ok(n)
        &&& forall|c: int| 0 <= c < self.classes@.len() ==> #[trigger] self.class_ok(c)
        &&& forall|i: int|
            0 <= i < self.root_eclasses@.len() ==> #[trigger] self.root_eclasses@[i]
                < self.classes@.len()
    }

    /// Node `n` is a node of class `c`.
    pub open spec fn member(&self, n: int, c: int) -> bool {
        &&& 0 <= n < self.nodes@.len()
        &&& self.nodes@[n].eclass == c
    }

    /// Nodes and classes can be counted in a machine word.
    pub proof fn lemma_sizes(&self)
        ensures
            self.nodes@.len() <= usize::MAX,
            self.classes@.len() <= usize::MAX,
    {
        assert(self.nodes@.len() == self.nodes.len());
        assert(self.classes@.len() == self.classes.len());
    }

    /// The class of a node.
    pub fn nid_to_cid(&self, node: NodeId) -> (class: ClassId)
        requires
            node < self.nodes@.len(),
        ensures
            class == self.nodes@[node as int].eclass,
    {
        self.nodes[node].eclass
    }

    /// Checks every reference in the graph.
    pub fn validate(&self) -> (checked: Result<(), MalformedGraph>)
        ensures
            checked.is_ok() <==> self.wf(),
    {
        let n_nodes = self.nodes.len();
        let n_classes = self.classes.len();
        let mut seen: Vec<bool> = Vec::new();
        while seen.len() < n_nodes
            invariant
                seen@.len() <= n_nodes,
                forall|n: int| 0 <= n < seen@.len() ==> !seen@[n],
            decreases n_nodes - seen@.len(),
        {
            seen.push(false);
        }
        let mut c: usize = 0;
        while c < n_classes
            invariant
                c <= n_classes,
                n_classes == self.classes@.len(),
                n_nodes == self.nodes@.len(),
                seen@.len() == n_nodes,
                forall|d: int| 0 <= d < c ==> #[trigger] self.class_ok(d),
                forall|n: int| 0 <= n < n_nodes ==> (#[trigger] seen@[n] <==> self.listed(n, c as int)),
            decreases n_classes - c,
        {
            let members = &self.classes[c].nodes;
            if members.len() == 0 {
                assert(!self.class_ok(c as int));
                return Err(MalformedGraph);
            }
            let mut j: usize = 0;
            while j < members.len()
                invariant
                    j <= members@.len(),
                    c < n_classes,
                    n_classes == self.classes@.len(),
                    n_nodes == self.nodes@.len(),
                    seen@.len() == n_nodes,
                    members@ == self.classes@[c as int].nodes@,
                    forall|i: int|
                        0 <= i < j ==> {
                            &&& #[trigger] members@[i] < n_nodes
                            &&& self.nodes@[members@[i] as int].eclass == c
                        },
                    forall|n: int|
                        0 <= n < n_nodes ==> (#[trigger] seen@[n] <==> (self.listed(n, c as int)
                            || self.listed_in(c as int, n, j as int))),
                decreases members@.len() - j,
            {
                let m = members[j];
                if m >= n_nodes || self.nodes[m].eclass != c {
                    assert(!self.class_ok(c as int));
                    return Err(MalformedGraph);
                }
                let ghost before = seen@;
                seen.set(m, true);
                proof {
                    assert forall|n: int| 0 <= n < n_nodes implies (#[trigger] seen@[n]
                        <==> (self.listed(n, c as int) || self.listed_in(
                        c as int,
                        n,
                        j as int + 1,
                    ))) by {
                        if n == m {
                            assert(self.classes@[c as int].nodes@[j as int] == n);
                        } else {
                            assert(seen@[n] == before[n]);
                            if self.listed_in(c as int, n, j as int + 1) {
                                let i = choose|i: int|
                                    0 <= i < j + 1 && #[trigger] self.classes@[c as int].nodes@[i]
                                        == n;
                                assert(i < j);
                            }
                        }
                    }
                }
                j += 1;
            }
            proof {
                assert(self.class_ok(c as int));
                assert forall|n: int| 0 <= n < n_nodes implies (#[trigger] seen@[n] <==> self.listed(
                    n,
                    c as int + 1,
                )) by {
                    if self.listed(n, c as int + 1) {
                        let d = choose|d: int|
                            0 <= d < c + 1 && #[trigger] self.listed_in(
                                d,
                                n,
                                self.classes@[d].nodes@.len() as int,
                            );
                        if d < c {
                            assert(self.listed(n, c as int));
                        }
                    }
                    if self.listed_in(c as int, n, j as int) {
                        assert(self.listed_in(c as int, n, self.classes@[c as int].nodes@.len() as int));
                    }
                }
            }
            c += 1;
        }
        let mut n: usize = 0;
        while n < n_nodes
            invariant
                n <= n_nodes,
                n_classes == self.classes@.len(),
                n_nodes == self.nodes@.len(),
                seen@.len() == n_nodes,
                forall|d: int| 0 <= d < n_classes ==> #[trigger] self.class_ok(d),
                forall|m: int|
                    0 <= m < n_nodes ==> (#[trigger] seen@[m] <==> self.listed(m, n_classes as int)),
                forall|m: int| 0 <= m < n ==> #[trigger] self.node_ok(m),
            decreases n_nodes - n,
        {
            let node = &self.nodes[n];
            if node.eclass >= n_classes || !seen[n] {
                proof {
                    if self.node_ok(n as int) {
                        assert(self.listed(n as int, n_classes as int));
                    }
                }
                return Err(MalformedGraph);
            }
            if !all_below(node.children.as_slice(), n_classes) {
                assert(!self.node_ok(n as int));
                return Err(MalformedGraph);
            }
            proof {
                let d = choose|d: int|
                    0 <= d < n_classes && #[trigger] self.listed_in(
                        d,
                        n as int,
                        self.classes@[d].nodes@.len() as int,
                    );
                assert(self.class_ok(d));
                assert(d == node.eclass);
            }
            n += 1;
        }
        if !all_below(self.root_eclasses.as_slice(), n_classes) {
            return Err(MalformedGraph);
        }
        Ok(())
    }
}

/// Whether every entry of `ids` is below `bound`.
pub fn all_below(ids: &[usize], bound: usize) -> (below: bool)
    ensures
        below <==> forall|i: int| 0 <= i < ids@.len() ==> #[trigger] ids@[i] < bound,
{
    let mut i: usize = 0;
    while i < ids.len()
        invariant
            i <= ids@.len(),
            forall|k: int| 0 <= k < i ==> #[trigger] ids@[k] < bound,
        decreases ids@.len() - i,
    {
        if ids[i] >= bound {
            return false;
        }
        i += 1;
    }
    true
}

} // verus!
