//! The state of an extraction that settles classes in order of cost, as
//! mathematics: what a step does to it, and what holds of it between steps.

use vstd::prelude::*;
use crate::cost::{Cost, INFINITY};
use crate::egraph::{ClassId, EGraph, NodeId};
use crate::extract::frontier::Candidate;
use crate::extract::{
    children_total, lemma_total_after_settling, lemma_total_of_unsettled, node_total,
    settled_before, ClassParents,
};

verus! {

/// How many of the classes below `upto` occur among `children` and are not
/// settled: each class counted once, however often it occurs.
pub open spec fn unsettled_count(
    children: Seq<ClassId>,
    costs: Map<ClassId, Cost>,
    upto: nat,
) -> nat
    decreases upto,
{
    if upto == 0 {
        0
    } else {
        let class = (upto - 1) as usize;
        unsettled_count(children, costs, (upto - 1) as nat) + if children.contains(class)
            && !costs.contains_key(class) {
            1nat
        } else {
            0nat
        }
    }
}

/// There are no more unsettled classes below `upto` than classes.
pub proof fn lemma_count_bounded(children: Seq<ClassId>, costs: Map<ClassId, Cost>, upto: nat)
    ensures
        unsettled_count(children, costs, upto) <= upto,
    decreases upto,
{
    if upto > 0 {
        lemma_count_bounded(children, costs, (upto - 1) as nat);
    }
}

/// Settling a class lowers the count by one where the class is a child, and
/// leaves it alone otherwise.
pub proof fn lemma_count_after_settling(
    children: Seq<ClassId>,
    costs: Map<ClassId, Cost>,
    class: ClassId,
    cost: Cost,
    upto: nat,
)
    requires
        !costs.contains_key(class),
        upto <= usize::MAX,
    ensures
        unsettled_count(children, costs, upto) == unsettled_count(
            children,
            costs.insert(class, cost),
            upto,
        ) + if class < upto && children.contains(class) {
            1nat
        } else {
            0nat
        },
    decreases upto,
{
    if upto > 0 {
        lemma_count_after_settling(children, costs, class, cost, (upto - 1) as nat);
    }
}

/// A positive count means that a child is not settled, which makes the
/// total infinite.
pub proof fn lemma_count_positive(children: Seq<ClassId>, costs: Map<ClassId, Cost>, upto: nat)
    requires
        unsettled_count(children, costs, upto) > 0,
    ensures
        children_total(children, costs) >= INFINITY,
    decreases upto,
{
    let class = (upto - 1) as usize;
    if children.contains(class) && !costs.contains_key(class) {
        lemma_total_of_unsettled(children, costs, class);
    } else {
        lemma_count_positive(children, costs, (upto - 1) as nat);
    }
}

/// A count of zero means that every child below `upto` is settled.
pub proof fn lemma_count_zero(
    children: Seq<ClassId>,
    costs: Map<ClassId, Cost>,
    upto: nat,
    class: ClassId,
)
    requires
        unsettled_count(children, costs, upto) == 0,
        class < upto,
        children.contains(class),
    ensures
        costs.contains_key(class),
    decreases upto,
{
    if class < upto - 1 {
        lemma_count_zero(children, costs, (upto - 1) as nat, class);
    }
}

/// What node `n` is taken to cost while the nodes in `hidden` still wait to
/// be looked at: those count as infinite, the others cost their total.
pub open spec fn seen_total(
    egraph: &EGraph,
    costs: Map<ClassId, Cost>,
    hidden: Seq<NodeId>,
    n: int,
) -> Cost {
    if hidden.contains(n as usize) {
        INFINITY
    } else {
        node_total(egraph.nodes@[n], costs)
    }
}

/// `held` is a cheapest way to realise `class`, as far as seen: its node is
/// a node of the class and costs what `held` says, and no node of the class
/// costs less. Where that cost is infinite, the node is a leaf if the class
/// has a leaf at all.
pub open spec fn best_hiding(
    egraph: &EGraph,
    costs: Map<ClassId, Cost>,
    class: int,
    held: Candidate,
    hidden: Seq<NodeId>,
) -> bool {
    &&& egraph.member(held.node as int, class)
    &&& held.cost == seen_total(egraph, costs, hidden, held.node as int)
    &&& forall|n: int| #[trigger]
        egraph.member(n, class) ==> held.cost <= seen_total(egraph, costs, hidden, n)
    &&& held.cost == INFINITY && egraph.nodes@[held.node as int].children@.len() > 0
        ==> forall|n: int| #[trigger]
        egraph.member(n, class) ==> egraph.nodes@[n].children@.len() > 0
}

/// `held` is a cheapest way to realise `class` under `costs`.
pub open spec fn best_in_class(
    egraph: &EGraph,
    costs: Map<ClassId, Cost>,
    class: int,
    held: Candidate,
) -> bool {
    best_hiding(egraph, costs, class, held, Seq::empty())
}

/// The state of one extraction, as mathematics.
#[verifier::ext_equal]
pub struct Run {
    /// The cost of each settled class.
    pub costs: Map<ClassId, Cost>,
    /// The node chosen for each settled class.
    pub choices: Map<ClassId, NodeId>,
    /// For each node, how many of its children's classes are not settled.
    pub pending: Seq<usize>,
    /// The best candidate of each class that is not settled.
    pub frontier: Map<ClassId, Candidate>,
    /// The settled classes, in the order in which they were settled.
    pub order: Seq<ClassId>,
}

impl Run {
    /// What the run holds for a class: what was settled, or else the
    /// candidate.
    pub open spec fn entry(self, class: ClassId) -> Candidate {
        if self.costs.contains_key(class) {
            Candidate { cost: self.costs[class], node: self.choices[class] }
        } else {
            self.frontier[class]
        }
    }

    /// Every class is either settled, with a cost and a node, or has a
    /// candidate.
    pub open spec fn partitioned(self, egraph: &EGraph) -> bool {
        &&& forall|c: ClassId| self.costs.contains_key(c) ==> c < egraph.classes@.len()
        &&& forall|c: ClassId| self.costs.contains_key(c) <==> self.choices.contains_key(c)
        &&& forall|c: ClassId|
            self.frontier.contains_key(c) <==> c < egraph.classes@.len()
                && !self.costs.contains_key(c)
    }

    /// The count of each node whose class is not settled is the number of
    /// its children's classes that are not settled; one more for the nodes
    /// in `hidden`, whose count lags behind.
    pub open spec fn counted(self, egraph: &EGraph, hidden: Seq<NodeId>) -> bool {
        &&& self.pending.len() == egraph.nodes@.len()
        &&& forall|n: int|
            0 <= n < egraph.nodes@.len() && !self.costs.contains_key(egraph.nodes@[n].eclass)
                ==> #[trigger] self.pending[n] == unsettled_count(
                egraph.nodes@[n].children@,
                self.costs,
                egraph.classes@.len(),
            ) + if hidden.contains(n as usize) {
                1nat
            } else {
                0nat
            }
    }

    /// No candidate is cheaper than a settled class.
    pub open spec fn sorted(self) -> bool {
        forall|s: ClassId, u: ClassId|
            self.costs.contains_key(s) && self.frontier.contains_key(u) ==> self.costs[s]
                <= self.frontier[u].cost
    }

    /// `order` lists the settled classes, each once, by rising cost; and
    /// where a class has a finite cost, the children of its node stand
    /// before it.
    pub open spec fn ordered(self, egraph: &EGraph) -> bool {
        &&& self.order.no_duplicates()
        &&& forall|c: ClassId| self.costs.contains_key(c) <==> self.order.contains(c)
        &&& forall|i: int, j: int|
            0 <= i <= j < self.order.len() ==> self.costs[self.order[i]]
                <= self.costs[self.order[j]]
        &&& forall|i: int, k: int|
            0 <= i < self.order.len() && self.costs[self.order[i]] < INFINITY && 0 <= k
                < egraph.nodes@[self.choices[self.order[i]] as int].children@.len()
                ==> #[trigger] settled_before(
                self.order,
                egraph.nodes@[self.choices[self.order[i]] as int].children@[k],
                i,
            )
    }

    /// What each class holds is a cheapest way to realise it.
    pub open spec fn best(self, egraph: &EGraph, hidden: Seq<NodeId>) -> bool {
        forall|c: ClassId|
            c < egraph.classes@.len() ==> best_hiding(
                egraph,
                self.costs,
                c as int,
                #[trigger] self.entry(c),
                if self.costs.contains_key(c) {
                    Seq::empty()
                } else {
                    hidden
                },
            )
    }

    /// Every class is settled.
    pub open spec fn complete(self, egraph: &EGraph) -> bool {
        forall|c: ClassId| c < egraph.classes@.len() ==> self.costs.contains_key(c)
    }

    /// The run has come to its end, with the choices `chosen`.
    pub open spec fn yields(self, egraph: &EGraph, chosen: Map<ClassId, NodeId>) -> bool {
        &&& self.inv(egraph)
        &&& self.complete(egraph)
        &&& self.choices == chosen
    }

    /// The run once `class` is settled with what `held` says.
    pub open spec fn settle(self, class: ClassId, held: Candidate) -> Run {
        Run {
            costs: self.costs.insert(class, held.cost),
            choices: self.choices.insert(class, held.node),
            pending: self.pending,
            frontier: self.frontier.remove(class),
            order: self.order.push(class),
        }
    }

    /// The run once node `p` is told that one of its children's classes was
    /// settled. Nothing happens where the class of `p` is settled itself.
    /// Otherwise the count of `p` goes down by one, and where it reaches
    /// zero, `p` is offered to its class at its total cost, and taken if
    /// that is cheaper than what the class has.
    pub open spec fn relax(self, egraph: &EGraph, p: NodeId) -> Run {
        let class = egraph.nodes@[p as int].eclass;
        let count = (self.pending[p as int] - 1) as usize;
        let total = node_total(egraph.nodes@[p as int], self.costs);
        if self.costs.contains_key(class) {
            self
        } else {
            Run {
                costs: self.costs,
                choices: self.choices,
                pending: self.pending.update(p as int, count),
                frontier: if count == 0 && total < self.frontier[class].cost {
                    self.frontier.insert(class, (Candidate { cost: total, node: p }))
                } else {
                    self.frontier
                },
                order: self.order,
            }
        }
    }

    /// The run once the nodes of `row` were told, one after the other.
    pub open spec fn relax_all(self, egraph: &EGraph, row: Seq<NodeId>) -> Run
        decreases row.len(),
    {
        if row.len() == 0 {
            self
        } else {
            self.relax_all(egraph, row.drop_last()).relax(egraph, row.last())
        }
    }

    /// What holds of a run while the nodes in `hidden` wait to be told that
    /// a class was settled.
    pub open spec fn inv_hiding(self, egraph: &EGraph, hidden: Seq<NodeId>) -> bool {
        &&& self.partitioned(egraph)
        &&& self.counted(egraph, hidden)
        &&& self.sorted()
        &&& self.ordered(egraph)
        &&& self.best(egraph, hidden)
    }

    /// What holds of a run between two steps.
    pub open spec fn inv(self, egraph: &EGraph) -> bool {
        self.inv_hiding(egraph, Seq::empty())
    }
}

/// `class` was settled last, at a cost that no settled class exceeds, and
/// the nodes of its row from position `j` on still wait to be told.
pub open spec fn relaxing(
    run: Run,
    egraph: &EGraph,
    class_parents: &ClassParents,
    class: ClassId,
    j: int,
) -> bool {
    &&& class < egraph.classes@.len()
    &&& 0 <= j <= class_parents.row(class as int).len()
    &&& run.inv_hiding(egraph, class_parents.row(class as int).skip(j))
    &&& run.costs.contains_key(class)
    &&& forall|s: ClassId| run.costs.contains_key(s) ==> run.costs[s] <= run.costs[class]
}

proof fn lemma_keeps_best(
    egraph: &EGraph,
    costs: Map<ClassId, Cost>,
    class: ClassId,
    cost: Cost,
    x: int,
    held: Candidate,
)
    requires
        !costs.contains_key(class),
        best_in_class(egraph, costs, x, held),
        held.cost <= cost,
    ensures
        best_in_class(egraph, costs.insert(class, cost), x, held),
{
    let after = costs.insert(class, cost);
    let none = Seq::<NodeId>::empty();
    assert forall|n: int| #[trigger] egraph.member(n, x) implies held.cost <= seen_total(
        egraph,
        after,
        none,
        n,
    ) by {
        lemma_total_after_settling(egraph.nodes@[n].children@, costs, class, cost);
        assert(held.cost <= seen_total(egraph, costs, none, n));
    }
    lemma_total_after_settling(egraph.nodes@[held.node as int].children@, costs, class, cost);
}

proof fn lemma_hides(
    egraph: &EGraph,
    class_parents: &ClassParents,
    costs: Map<ClassId, Cost>,
    class: ClassId,
    cost: Cost,
    x: int,
    held: Candidate,
)
    requires
        class_parents.indexes(egraph),
        class < egraph.classes@.len(),
        !costs.contains_key(class),
        best_in_class(egraph, costs, x, held),
    ensures
        best_hiding(egraph, costs.insert(class, cost), x, held, class_parents.row(class as int)),
{
    let after = costs.insert(class, cost);
    let none = Seq::<NodeId>::empty();
    let row = class_parents.row(class as int);
    assert forall|n: int| 0 <= n < egraph.nodes@.len() implies seen_total(egraph, after, row, n)
        == seen_total(egraph, costs, none, n) by {
        class_parents.lemma_listed_iff_child(egraph, class, n);
        lemma_total_after_settling(egraph.nodes@[n].children@, costs, class, cost);
    }
    assert forall|n: int| #[trigger] egraph.member(n, x) implies held.cost <= seen_total(
        egraph,
        after,
        row,
        n,
    ) by {
        assert(held.cost <= seen_total(egraph, costs, none, n));
    }
}

proof fn lemma_settle_counted(
    egraph: &EGraph,
    class_parents: &ClassParents,
    run: Run,
    class: ClassId,
    held: Candidate,
)
    requires
        egraph.wf(),
        class_parents.indexes(egraph),
        run.partitioned(egraph),
        run.counted(egraph, Seq::empty()),
        run.frontier.contains_key(class),
    ensures
        run.settle(class, held).counted(egraph, class_parents.row(class as int)),
{
    let after = run.settle(class, held);
    let row = class_parents.row(class as int);
    egraph.lemma_sizes();
    assert forall|n: int|
        0 <= n < egraph.nodes@.len() && !after.costs.contains_key(
            egraph.nodes@[n].eclass,
        ) implies #[trigger] after.pending[n] == unsettled_count(
        egraph.nodes@[n].children@,
        after.costs,
        egraph.classes@.len(),
    ) + if row.contains(n as usize) {
        1nat
    } else {
        0nat
    } by {
        assert(run.pending[n] == unsettled_count(
            egraph.nodes@[n].children@,
            run.costs,
            egraph.classes@.len(),
        ));
        lemma_count_after_settling(
            egraph.nodes@[n].children@,
            run.costs,
            class,
            held.cost,
            egraph.classes@.len(),
        );
        class_parents.lemma_listed_iff_child(egraph, class, n);
    }
}

proof fn lemma_settle_ordered(egraph: &EGraph, run: Run, class: ClassId, held: Candidate)
    requires
        run.partitioned(egraph),
        run.sorted(),
        run.ordered(egraph),
        run.frontier.contains_key(class),
        held == run.frontier[class],
        best_in_class(egraph, run.costs, class as int, held),
    ensures
        run.settle(class, held).ordered(egraph),
{
    let after = run.settle(class, held);
    let last = run.order.len() as int;
    assert(!run.order.contains(class));
    assert forall|i: int| 0 <= i < last implies after.order[i] == run.order[i] && run.order[i]
        != class && run.costs.contains_key(run.order[i]) by {
        assert(run.order.contains(run.order[i]));
    }
    assert(after.order[last] == class);
    assert forall|c: ClassId| after.costs.contains_key(c) <==> after.order.contains(c) by {
        if run.order.contains(c) {
            let i = choose|i: int| 0 <= i < run.order.len() && run.order[i] == c;
            assert(after.order[i] == c);
        }
        if after.order.contains(c) {
            let i = choose|i: int| 0 <= i < after.order.len() && after.order[i] == c;
            if i < last {
                assert(run.order.contains(c));
            }
        }
    }
    assert forall|i: int, j: int| 0 <= i <= j < after.order.len() implies after.costs[after.order[i]]
        <= after.costs[after.order[j]] by {
        if j < last {
            assert(run.costs[run.order[i]] <= run.costs[run.order[j]]);
        }
    }
    assert forall|i: int, k: int|
        0 <= i < after.order.len() && after.costs[after.order[i]] < INFINITY && 0 <= k
            < egraph.nodes@[after.choices[after.order[i]] as int].children@.len()
            implies #[trigger] settled_before(
        after.order,
        egraph.nodes@[after.choices[after.order[i]] as int].children@[k],
        i,
    ) by {
        let children = egraph.nodes@[after.choices[after.order[i]] as int].children@;
        if i < last {
            assert(settled_before(
                run.order,
                egraph.nodes@[run.choices[run.order[i]] as int].children@[k],
                i,
            ));
            let j = choose|j: int| 0 <= j < i && #[trigger] run.order[j] == children[k];
            assert(after.order[j] == children[k]);
        } else {
            assert(children.contains(children[k]));
            if !run.costs.contains_key(children[k]) {
                lemma_total_of_unsettled(children, run.costs, children[k]);
            }
            assert(run.order.contains(children[k]));
            let j = choose|j: int| 0 <= j < run.order.len() && run.order[j] == children[k];
            assert(after.order[j] == children[k]);
        }
    }
}

proof fn lemma_settle_best(
    egraph: &EGraph,
    class_parents: &ClassParents,
    run: Run,
    class: ClassId,
    held: Candidate,
)
    requires
        class_parents.indexes(egraph),
        run.partitioned(egraph),
        run.sorted(),
        run.best(egraph, Seq::empty()),
        run.frontier.contains_key(class),
        held == run.frontier[class],
    ensures
        run.settle(class, held).best(egraph, class_parents.row(class as int)),
{
    let after = run.settle(class, held);
    let row = class_parents.row(class as int);
    assert forall|c: ClassId| c < egraph.classes@.len() implies best_hiding(
        egraph,
        after.costs,
        c as int,
        #[trigger] after.entry(c),
        if after.costs.contains_key(c) {
            Seq::empty()
        } else {
            row
        },
    ) by {
        assert(best_in_class(egraph, run.costs, c as int, run.entry(c)));
        if c == class {
            assert(after.entry(c) == held);
            lemma_keeps_best(egraph, run.costs, class, held.cost, c as int, held);
        } else if run.costs.contains_key(c) {
            assert(after.entry(c) == run.entry(c));
            lemma_keeps_best(egraph, run.costs, class, held.cost, c as int, run.entry(c));
        } else {
            assert(run.frontier.contains_key(c));
            assert(after.entry(c) == run.entry(c));
            lemma_hides(egraph, class_parents, run.costs, class, held.cost, c as int, run.entry(c));
        }
    }
}

/// Settling the class with the cheapest candidate leaves the run in order,
/// but for the nodes that use the class, which wait to be told.
pub proof fn lemma_settle(
    egraph: &EGraph,
    class_parents: &ClassParents,
    run: Run,
    class: ClassId,
    held: Candidate,
)
    requires
        egraph.wf(),
        class_parents.indexes(egraph),
        run.inv(egraph),
        run.frontier.contains_key(class),
        held == run.frontier[class],
        forall|other: ClassId| #[trigger]
            run.frontier.contains_key(other) ==> held.cost <= run.frontier[other].cost,
    ensures
        relaxing(run.settle(class, held), egraph, class_parents, class, 0),
{
    let after = run.settle(class, held);
    assert(class_parents.row(class as int).skip(0) =~= class_parents.row(class as int));
    assert(best_in_class(egraph, run.costs, class as int, run.entry(class)));
    lemma_settle_counted(egraph, class_parents, run, class, held);
    lemma_settle_ordered(egraph, run, class, held);
    lemma_settle_best(egraph, class_parents, run, class, held);
}

proof fn lemma_relax_counted(
    egraph: &EGraph,
    class_parents: &ClassParents,
    run: Run,
    class: ClassId,
    j: int,
)
    requires
        egraph.wf(),
        class_parents.indexes(egraph),
        relaxing(run, egraph, class_parents, class, j),
        j < class_parents.row(class as int).len(),
    ensures
        run.relax(egraph, class_parents.row(class as int)[j]).counted(
            egraph,
            class_parents.row(class as int).skip(j + 1),
        ),
{
    let row = class_parents.row(class as int);
    let p = row[j];
    let after = run.relax(egraph, p);
    egraph.lemma_sizes();
    class_parents.lemma_next_in_row(egraph, class, j);
    assert(row.skip(j).contains(p));
    assert(class_parents.row(class as int)[j] < egraph.nodes@.len());
    assert forall|n: int|
        0 <= n < egraph.nodes@.len() && !after.costs.contains_key(
            egraph.nodes@[n].eclass,
        ) implies #[trigger] after.pending[n] == unsettled_count(
        egraph.nodes@[n].children@,
        after.costs,
        egraph.classes@.len(),
    ) + if row.skip(j + 1).contains(n as usize) {
        1nat
    } else {
        0nat
    } by {
        assert(run.pending[n] == unsettled_count(
            egraph.nodes@[n].children@,
            run.costs,
            egraph.classes@.len(),
        ) + if row.skip(j).contains(n as usize) {
            1nat
        } else {
            0nat
        });
        assert(row.skip(j).contains(n as usize) <==> (n as usize == p || row.skip(j + 1).contains(
            n as usize,
        )));
    }
}

proof fn lemma_relax_best(
    egraph: &EGraph,
    class_parents: &ClassParents,
    run: Run,
    class: ClassId,
    j: int,
)
    requires
        egraph.wf(),
        class_parents.indexes(egraph),
        relaxing(run, egraph, class_parents, class, j),
        j < class_parents.row(class as int).len(),
    ensures
        run.relax(egraph, class_parents.row(class as int)[j]).best(
            egraph,
            class_parents.row(class as int).skip(j + 1),
        ),
{
    let row = class_parents.row(class as int);
    let now = row.skip(j);
    let then = row.skip(j + 1);
    let p = row[j];
    let after = run.relax(egraph, p);
    let owner = egraph.nodes@[p as int].eclass;
    let total = node_total(egraph.nodes@[p as int], run.costs);
    egraph.lemma_sizes();
    class_parents.lemma_next_in_row(egraph, class, j);
    assert(now.contains(p));
    assert(class_parents.row(class as int)[j] < egraph.nodes@.len());
    assert(egraph.node_ok(p as int));
    assert forall|n: int| 0 <= n < egraph.nodes@.len() && n != p implies seen_total(
        egraph,
        run.costs,
        then,
        n,
    ) == seen_total(egraph, run.costs, now, n) by {
        assert(now.contains(n as usize) <==> (n as usize == p || then.contains(n as usize)));
    }
    if !run.costs.contains_key(owner) {
        assert(run.pending[p as int] == unsettled_count(
            egraph.nodes@[p as int].children@,
            run.costs,
            egraph.classes@.len(),
        ) + 1);
        if run.pending[p as int] - 1 > 0 {
            lemma_count_positive(
                egraph.nodes@[p as int].children@,
                run.costs,
                egraph.classes@.len(),
            );
            lemma_total_after_settling(egraph.nodes@[p as int].children@, Map::empty(), 0, 0);
        }
    }
    assert forall|c: ClassId| c < egraph.classes@.len() implies best_hiding(
        egraph,
        after.costs,
        c as int,
        #[trigger] after.entry(c),
        if after.costs.contains_key(c) {
            Seq::empty()
        } else {
            then
        },
    ) by {
        let held = run.entry(c);
        assert(best_hiding(
            egraph,
            run.costs,
            c as int,
            held,
            if run.costs.contains_key(c) {
                Seq::empty()
            } else {
                now
            },
        ));
        if run.costs.contains_key(c) {
            assert(after.entry(c) == held);
        } else if c != owner || run.costs.contains_key(owner) {
            assert(after.entry(c) == held);
            assert forall|n: int| #[trigger] egraph.member(n, c as int) implies held.cost
                <= seen_total(egraph, run.costs, then, n) by {
                assert(held.cost <= seen_total(egraph, run.costs, now, n));
            }
        } else {
            let kept = after.entry(c);
            assert(kept == after.frontier[c]);
            assert forall|n: int| #[trigger] egraph.member(n, c as int) implies kept.cost
                <= seen_total(egraph, run.costs, then, n) by {
                assert(held.cost <= seen_total(egraph, run.costs, now, n));
            }
        }
    }
}

/// Telling the next node of the row keeps the run in order.
pub proof fn lemma_relax(
    egraph: &EGraph,
    class_parents: &ClassParents,
    run: Run,
    class: ClassId,
    j: int,
)
    requires
        egraph.wf(),
        class_parents.indexes(egraph),
        relaxing(run, egraph, class_parents, class, j),
        j < class_parents.row(class as int).len(),
    ensures
        relaxing(
            run.relax(egraph, class_parents.row(class as int)[j]),
            egraph,
            class_parents,
            class,
            j + 1,
        ),
{
    let row = class_parents.row(class as int);
    let p = row[j];
    let after = run.relax(egraph, p);
    let owner = egraph.nodes@[p as int].eclass;
    lemma_relax_counted(egraph, class_parents, run, class, j);
    lemma_relax_best(egraph, class_parents, run, class, j);
    assert(class_parents.row(class as int)[j] < egraph.nodes@.len());
    assert(egraph.node_ok(p as int));
    class_parents.lemma_listed_iff_child(egraph, class, p as int);
    assert(row.contains(row[j]));
    lemma_total_after_settling(
        egraph.nodes@[p as int].children@,
        run.costs.remove(class),
        class,
        run.costs[class],
    );
    assert(run.costs.remove(class).insert(class, run.costs[class]) =~= run.costs);
    assert(after.ordered(egraph));
}

} // verus!
