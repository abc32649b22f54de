//! The reverse index of a graph: for each class, the nodes that use it.

use vstd::prelude::*;
use crate::egraph::{ClassId, EGraph, NodeId};

verus! {

/// For each class, the nodes that have it among their children: each such
/// node once, however often it names the class, and in rising order.
pub struct ClassParents {
    pub table: Vec<Vec<NodeId>>,
}

impl ClassParents {
    /// The nodes recorded under class `c`.
    pub open spec fn row(&self, c: int) -> Seq<NodeId> {
        self.table@[c]@
    }

    /// This is the reverse index of `egraph`: every row holds the nodes that
    /// use its class, all of them, each once, in rising order.
    pub open spec fn indexes(&self, egraph: &EGraph) -> bool {
        &&& self.table@.len() == egraph.classes@.len()
        &&& forall|c: int, i: int, j: int|
            0 <= c < self.table@.len() && 0 <= i < j < self.row(c).len() ==> self.row(c)[i]
                < self.row(c)[j]
        &&& forall|c: int, i: int|
            0 <= c < self.table@.len() && 0 <= i < self.row(c).len() ==> {
                &&& #[trigger] self.row(c)[i] < egraph.nodes@.len()
                &&& egraph.nodes@[self.row(c)[i] as int].children@.contains(c as usize)
            }
        &&& forall|n: int, k: int|
            0 <= n < egraph.nodes@.len() && 0 <= k < egraph.nodes@[n].children@.len()
                ==> self.row(#[trigger] egraph.nodes@[n].children@[k] as int).contains(n as usize)
    }
}

/// Builds the reverse index of a graph.
pub fn compute_class_parents(egraph: &EGraph) -> (parents: ClassParents)
    requires
        egraph.wf(),
    ensures
        parents.indexes(egraph),
{
    let n_classes = egraph.classes.len();
    let n_nodes = egraph.nodes.len();
    let mut parents = ClassParents { table: Vec::new() };
    while parents.table.len() < n_classes
        invariant
            parents.table@.len() <= n_classes,
            forall|c: int| 0 <= c < parents.table@.len() ==> (#[trigger] parents.row(c)).len() == 0,
        decreases n_classes - parents.table@.len(),
    {
        let ghost before = parents;
        parents.table.push(Vec::new());
        assert forall|c: int| 0 <= c < parents.table@.len() implies (#[trigger] parents.row(c)).len()
            == 0 by {
            if c < before.table@.len() {
                assert(parents.row(c) == before.row(c));
            }
        }
    }
    let mut n: usize = 0;
    while n < n_nodes
        invariant
            n <= n_nodes,
            egraph.wf(),
            n_nodes == egraph.nodes@.len(),
            n_classes == egraph.classes@.len(),
            parents.table@.len() == n_classes,
            forall|c: int, i: int, j: int|
                0 <= c < n_classes && 0 <= i < j < parents.row(c).len() ==> parents.row(c)[i]
                    < parents.row(c)[j],
            forall|c: int, i: int|
                0 <= c < n_classes && 0 <= i < parents.row(c).len() ==> {
                    &&& #[trigger] parents.row(c)[i] < n
                    &&& egraph.nodes@[parents.row(c)[i] as int].children@.contains(c as usize)
                },
            forall|m: int, k: int|
                0 <= m < n && 0 <= k < egraph.nodes@[m].children@.len() ==> parents.row(
                    #[trigger] egraph.nodes@[m].children@[k] as int,
                ).contains(m as usize),
        decreases n_nodes - n,
    {
        let children = &egraph.nodes[n].children;
        assert(egraph.node_ok(n as int));
        let mut k: usize = 0;
        while k < children.len()
            invariant
                k <= children@.len(),
                n < n_nodes,
                egraph.wf(),
                n_nodes == egraph.nodes@.len(),
                n_classes == egraph.classes@.len(),
                children@ == egraph.nodes@[n as int].children@,
                egraph.node_ok(n as int),
                parents.table@.len() == n_classes,
                forall|c: int, i: int, j: int|
                    0 <= c < n_classes && 0 <= i < j < parents.row(c).len() ==> parents.row(c)[i]
                        < parents.row(c)[j],
                forall|c: int, i: int|
                    0 <= c < n_classes && 0 <= i < parents.row(c).len() ==> {
                        &&& #[trigger] parents.row(c)[i] <= n
                        &&& egraph.nodes@[parents.row(c)[i] as int].children@.contains(c as usize)
                    },
                forall|m: int, k: int|
                    0 <= m < n && 0 <= k < egraph.nodes@[m].children@.len() ==> parents.row(
                        #[trigger] egraph.nodes@[m].children@[k] as int,
                    ).contains(m as usize),
                forall|h: int|
                    0 <= h < k ==> parents.row(#[trigger] children@[h] as int).contains(n),
            decreases children@.len() - k,
        {
            let c = children[k];
            let len = parents.table[c].len();
            let ghost before = parents;
            if len == 0 || parents.table[c][len - 1] != n {
                parents.table[c].push(n);
                proof {
                    assert(parents.row(c as int) == before.row(c as int).push(n));
                    assert(forall|d: int|
                        0 <= d < n_classes && d != c ==> parents.row(d) == before.row(d));
                    assert(parents.row(c as int)[len as int] == n);
                    assert forall|d: int, x: NodeId|
                        0 <= d < n_classes && before.row(d).contains(x) implies parents.row(
                        d,
                    ).contains(x) by {
                        let i = choose|i: int| 0 <= i < before.row(d).len() && before.row(d)[i] == x;
                        assert(parents.row(d)[i] == x);
                    }
                    assert forall|d: int, i: int, j: int|
                        0 <= d < n_classes && 0 <= i < j < parents.row(d).len() implies parents.row(
                        d,
                    )[i] < parents.row(d)[j] by {
                        if d == c && j == len {
                            assert(before.row(d)[i] <= n);
                            if len > 0 {
                                assert(before.row(d)[len - 1] <= n);
                                assert(i < len - 1 ==> before.row(d)[i] < before.row(d)[len - 1]);
                            }
                        }
                    }
                    assert(egraph.nodes@[n as int].children@[k as int] == c);
                    assert forall|m: int, h: int|
                        0 <= m < n && 0 <= h < egraph.nodes@[m].children@.len() implies parents.row(
                        #[trigger] egraph.nodes@[m].children@[h] as int,
                    ).contains(m as usize) by {
                        assert(egraph.node_ok(m));
                        assert(before.row(egraph.nodes@[m].children@[h] as int).contains(m as usize));
                    }
                    assert forall|h: int| 0 <= h < k + 1 implies parents.row(
                        #[trigger] children@[h] as int,
                    ).contains(n) by {
                        if h < k {
                            assert(before.row(children@[h] as int).contains(n));
                        }
                    }
                }
            } else {
                assert(parents.row(c as int)[len - 1] == n);
            }
            k += 1;
        }
        n += 1;
    }
    parents
}

/// Each entry is below those that follow it.
pub open spec fn rising(s: Seq<usize>) -> bool {
    forall|i: int, j: int| 0 <= i < j < s.len() ==> s[i] < s[j]
}

/// Rising sequences that hold the same numbers are the same.
pub proof fn lemma_rising_same(a: Seq<usize>, b: Seq<usize>)
    requires
        rising(a),
        rising(b),
        forall|x: usize| a.contains(x) <==> b.contains(x),
    ensures
        a == b,
    decreases a.len(),
{
    if a.len() == 0 {
        if b.len() > 0 {
            assert(b.contains(b[0]));
        }
        assert(a =~= b);
    } else if b.len() == 0 {
        assert(a.contains(a[0]));
    } else {
        let top_a = a.last();
        let top_b = b.last();
        assert(a.contains(a[a.len() - 1]));
        assert(b.contains(b[b.len() - 1]));
        assert(top_a == top_b) by {
            let i = choose|i: int| 0 <= i < b.len() && b[i] == top_a;
            let j = choose|j: int| 0 <= j < a.len() && a[j] == top_b;
            if i < b.len() - 1 {
                assert(b[i] < b[b.len() - 1]);
            }
            if j < a.len() - 1 {
                assert(a[j] < a[a.len() - 1]);
            }
        }
        let front_a = a.drop_last();
        let front_b = b.drop_last();
        assert forall|x: usize| front_a.contains(x) <==> front_b.contains(x) by {
            if front_a.contains(x) {
                let i = choose|i: int| 0 <= i < front_a.len() && front_a[i] == x;
                assert(a[i] < a[a.len() - 1]);
                assert(a.contains(a[i]));
                let j = choose|j: int| 0 <= j < b.len() && b[j] == x;
                assert(front_b[j] == x);
            }
            if front_b.contains(x) {
                let i = choose|i: int| 0 <= i < front_b.len() && front_b[i] == x;
                assert(b[i] < b[b.len() - 1]);
                assert(b.contains(b[i]));
                let j = choose|j: int| 0 <= j < a.len() && a[j] == x;
                assert(front_a[j] == x);
            }
        }
        assert forall|i: int, j: int| 0 <= i < j < front_a.len() implies front_a[i] < front_a[j] by {
            assert(a[i] < a[j]);
        }
        assert forall|i: int, j: int| 0 <= i < j < front_b.len() implies front_b[i] < front_b[j] by {
            assert(b[i] < b[j]);
        }
        lemma_rising_same(front_a, front_b);
        assert(a =~= front_a.push(top_a));
        assert(b =~= front_b.push(top_b));
    }
}

/// Whether two rows hold the same nodes in the same order.
fn same_row(a: &Vec<NodeId>, b: &Vec<NodeId>) -> (same: bool)
    ensures
        same == (a@ == b@),
{
    if a.len() != b.len() {
        return false;
    }
    let mut i: usize = 0;
    while i < a.len()
        invariant
            i <= a@.len(),
            a@.len() == b@.len(),
            forall|k: int| 0 <= k < i ==> a@[k] == b@[k],
        decreases a@.len() - i,
    {
        if a[i] != b[i] {
            return false;
        }
        i += 1;
    }
    assert(a@ =~= b@);
    true
}

impl ClassParents {
    /// Whether this is the reverse index of `egraph`.
    pub fn is_index_of(&self, egraph: &EGraph) -> (whole: bool)
        requires
            egraph.wf(),
        ensures
            whole == self.indexes(egraph),
    {
        let fresh = compute_class_parents(egraph);
        if self.table.len() != fresh.table.len() {
            return false;
        }
        let mut c: usize = 0;
        while c < self.table.len()
            invariant
                c <= self.table@.len(),
                self.table@.len() == fresh.table@.len(),
                fresh.indexes(egraph),
                forall|d: int| 0 <= d < c ==> #[trigger] self.row(d) == fresh.row(d),
            decreases self.table@.len() - c,
        {
            if !same_row(&self.table[c], &fresh.table[c]) {
                proof {
                    if self.indexes(egraph) {
                        self.lemma_rows_are_given(egraph, &fresh, c as int);
                    }
                }
                return false;
            }
            c += 1;
        }
        proof {
            assert forall|d: int, i: int|
                0 <= d < self.table@.len() && 0 <= i < self.row(d).len() implies {
                &&& #[trigger] self.row(d)[i] < egraph.nodes@.len()
                &&& egraph.nodes@[self.row(d)[i] as int].children@.contains(d as usize)
            } by {
                assert(self.row(d) == fresh.row(d));
                assert(fresh.row(d)[i] < egraph.nodes@.len());
            }
            assert forall|d: int, i: int, j: int|
                0 <= d < self.table@.len() && 0 <= i < j < self.row(d).len() implies self.row(d)[i]
                < self.row(d)[j] by {
                assert(self.row(d) == fresh.row(d));
                assert(fresh.row(d)[i] < fresh.row(d)[j]);
            }
            assert forall|n: int, k: int|
                0 <= n < egraph.nodes@.len() && 0 <= k
                    < egraph.nodes@[n].children@.len() implies self.row(
                #[trigger] egraph.nodes@[n].children@[k] as int,
            ).contains(n as usize) by {
                assert(egraph.node_ok(n));
                let d = egraph.nodes@[n].children@[k] as int;
                assert(self.row(d) == fresh.row(d));
                assert(fresh.row(egraph.nodes@[n].children@[k] as int).contains(n as usize));
            }
        }
        true
    }

    /// The reverse index of a graph is the only one: two of them have the
    /// same rows.
    pub proof fn lemma_rows_are_given(&self, egraph: &EGraph, other: &ClassParents, c: int)
        requires
            self.indexes(egraph),
            other.indexes(egraph),
            0 <= c < egraph.classes@.len(),
        ensures
            self.row(c) == other.row(c),
    {
        egraph.lemma_sizes();
        let a = self.row(c);
        let b = other.row(c);
        assert forall|x: usize| a.contains(x) <==> b.contains(x) by {
            if a.contains(x) {
                let i = choose|i: int| 0 <= i < a.len() && a[i] == x;
                assert(self.row(c)[i] < egraph.nodes@.len());
            }
            if b.contains(x) {
                let i = choose|i: int| 0 <= i < b.len() && b[i] == x;
                assert(other.row(c)[i] < egraph.nodes@.len());
            }
            if x < egraph.nodes@.len() {
                self.lemma_listed_iff_child(egraph, c as usize, x as int);
                other.lemma_listed_iff_child(egraph, c as usize, x as int);
            }
        }
        assert forall|i: int, j: int| 0 <= i < j < a.len() implies a[i] < a[j] by {
            assert(self.row(c)[i] < self.row(c)[j]);
        }
        assert forall|i: int, j: int| 0 <= i < j < b.len() implies b[i] < b[j] by {
            assert(other.row(c)[i] < other.row(c)[j]);
        }
        lemma_rising_same(a, b);
    }
}

impl ClassParents {
    /// The reverse index lists a node under a class exactly where the class
    /// is among the node's children.
    pub proof fn lemma_listed_iff_child(&self, egraph: &EGraph, class: ClassId, n: int)
        requires
            self.indexes(egraph),
            class < egraph.classes@.len(),
            0 <= n < egraph.nodes@.len(),
        ensures
            self.row(class as int).contains(n as usize) <==> egraph.nodes@[n].children@.contains(
                class,
            ),
    {
        let children = egraph.nodes@[n].children@;
        let row = self.row(class as int);
        egraph.lemma_sizes();
        if row.contains(n as usize) {
            let i = choose|i: int| 0 <= i < row.len() && row[i] == n as usize;
            assert(egraph.nodes@[self.row(class as int)[i] as int].children@.contains(class));
        }
        if children.contains(class) {
            let k = choose|k: int| 0 <= k < children.len() && children[k] == class;
            assert(self.row(egraph.nodes@[n].children@[k] as int).contains(n as usize));
        }
    }

    /// Looking at the next node of a row: it leaves the nodes that wait, and
    /// is not among those that still do.
    pub proof fn lemma_next_in_row(&self, egraph: &EGraph, class: ClassId, j: int)
        requires
            self.indexes(egraph),
            class < egraph.classes@.len(),
            0 <= j < self.row(class as int).len(),
        ensures
            !self.row(class as int).skip(j + 1).contains(self.row(class as int)[j]),
            forall|x: NodeId| #[trigger]
                self.row(class as int).skip(j).contains(x) <==> (x == self.row(class as int)[j]
                    || self.row(class as int).skip(j + 1).contains(x)),
    {
        let row = self.row(class as int);
        let now = row.skip(j);
        let then = row.skip(j + 1);
        if then.contains(row[j]) {
            let i = choose|i: int| 0 <= i < then.len() && then[i] == row[j];
            assert(self.row(class as int)[j] != self.row(class as int)[j + 1 + i]);
        }
        assert forall|x: NodeId| #[trigger] now.contains(x) <==> (x == row[j] || then.contains(
            x,
        )) by {
            if now.contains(x) {
                let i = choose|i: int| 0 <= i < now.len() && now[i] == x;
                if i > 0 {
                    assert(then[i - 1] == x);
                }
            }
            if then.contains(x) {
                let i = choose|i: int| 0 <= i < then.len() && then[i] == x;
                assert(now[i + 1] == x);
            }
            if x == row[j] {
                assert(now[0] == x);
            }
        }
    }
}

} // verus!
