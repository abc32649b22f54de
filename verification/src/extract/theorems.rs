//! What holds of every extraction that settles classes in order of cost.

use vstd::prelude::*;
use crate::cost::{clip, Cost, INFINITY};
use crate::egraph::{ClassId, EGraph, NodeId};
use crate::extract::cycles::{has_cycle, lemma_ranked_among_no_cycle, ranked_among};
use crate::extract::run::{
    best_hiding, lemma_count_positive, lemma_count_zero, seen_total, unsettled_count, Run,
};
use crate::extract::frontier::Candidate;
use crate::extract::totals::{dag_total, lemma_tree_costs_step, reaches, tree_costs};
use crate::extract::{
    chosen_children, cost_of, lemma_total_covers_child, lemma_total_monotone,
    lemma_total_nonnegative, lemma_total_of_unsettled, node_total, settled_before, ClassParents,
};

verus! {

/// Telling nodes changes no settled cost, no choice and not the order.
pub proof fn lemma_telling_keeps_settled(egraph: &EGraph, run: Run, row: Seq<NodeId>)
    ensures
        run.relax_all(egraph, row).costs == run.costs,
        run.relax_all(egraph, row).choices == run.choices,
        run.relax_all(egraph, row).order == run.order,
    decreases row.len(),
{
    if row.len() > 0 {
        lemma_telling_keeps_settled(egraph, run, row.drop_last());
    }
}

/// What is settled stays as it is: a step adds the class that it settles,
/// and changes the cost and the choice of no class settled before.
pub proof fn lemma_settled_never_changes(
    egraph: &EGraph,
    run: Run,
    class: ClassId,
    held: Candidate,
    row: Seq<NodeId>,
    earlier: ClassId,
)
    requires
        !run.costs.contains_key(class),
        run.costs.contains_key(earlier),
    ensures
        run.settle(class, held).relax_all(egraph, row).costs.contains_key(earlier),
        run.settle(class, held).relax_all(egraph, row).costs[earlier] == run.costs[earlier],
        run.settle(class, held).relax_all(egraph, row).choices[earlier] == run.choices[earlier],
{
    lemma_telling_keeps_settled(egraph, run.settle(class, held), row);
}

/// In a class that has a leaf, and whose other nodes all cost infinitely
/// much, the node chosen is a leaf that no leaf of the class is cheaper
/// than, and the class is settled at that leaf's own cost. This holds in
/// particular of a class that has leaves only.
pub proof fn lemma_cheapest_leaf_chosen(egraph: &EGraph, run: Run, class: ClassId, leaf: int)
    requires
        run.inv(egraph),
        run.complete(egraph),
        class < egraph.classes@.len(),
        egraph.member(leaf, class as int),
        egraph.nodes@[leaf].children@.len() == 0,
        forall|n: int| #[trigger]
            egraph.member(n, class as int) && egraph.nodes@[n].children@.len() > 0 ==> node_total(
                egraph.nodes@[n],
                run.costs,
            ) == INFINITY,
    ensures
        egraph.member(run.choices[class] as int, class as int),
        egraph.nodes@[run.choices[class] as int].children@.len() == 0,
        run.costs[class] == egraph.nodes@[run.choices[class] as int].cost,
        forall|n: int| #[trigger]
            egraph.member(n, class as int) && egraph.nodes@[n].children@.len() == 0
                ==> egraph.nodes@[run.choices[class] as int].cost <= egraph.nodes@[n].cost,
{
    let none = Seq::<NodeId>::empty();
    let held = run.entry(class);
    assert(best_hiding(egraph, run.costs, class as int, held, none));
    assert(egraph.member(held.node as int, class as int));
    assert forall|n: int| #[trigger]
        egraph.member(n, class as int) && egraph.nodes@[n].children@.len()
            == 0 implies egraph.nodes@[held.node as int].cost <= egraph.nodes@[n].cost
        && egraph.nodes@[held.node as int].children@.len() == 0 by {
        assert(held.cost <= node_total(egraph.nodes@[n], run.costs));
    }
}

/// The count of a node whose class is not settled is zero exactly when all
/// of its children's classes are settled.
pub proof fn lemma_count_zero_iff_ready(egraph: &EGraph, run: Run, n: int)
    requires
        egraph.wf(),
        run.inv(egraph),
        0 <= n < egraph.nodes@.len(),
        !run.costs.contains_key(egraph.nodes@[n].eclass),
    ensures
        run.pending[n] == 0 <==> forall|k: int|
            0 <= k < egraph.nodes@[n].children@.len() ==> run.costs.contains_key(
                #[trigger] egraph.nodes@[n].children@[k],
            ),
{
    let children = egraph.nodes@[n].children@;
    let classes = egraph.classes@.len();
    assert(run.pending[n] == unsettled_count(children, run.costs, classes));
    assert(egraph.node_ok(n));
    if run.pending[n] == 0 {
        assert forall|k: int| 0 <= k < children.len() implies run.costs.contains_key(
            #[trigger] children[k],
        ) by {
            assert(children.contains(children[k]));
            lemma_count_zero(children, run.costs, classes, children[k]);
        }
    } else {
        lemma_count_positive(children, run.costs, classes);
        if forall|k: int| 0 <= k < children.len() ==> run.costs.contains_key(#[trigger] children[k]) {
            lemma_all_settled_count(children, run.costs, classes);
        }
    }
}

/// Where every child is settled, no class counts as unsettled.
proof fn lemma_all_settled_count(children: Seq<ClassId>, costs: Map<ClassId, Cost>, upto: nat)
    requires
        forall|k: int| 0 <= k < children.len() ==> costs.contains_key(#[trigger] children[k]),
    ensures
        unsettled_count(children, costs, upto) == 0,
    decreases upto,
{
    if upto > 0 {
        lemma_all_settled_count(children, costs, (upto - 1) as nat);
        let class = (upto - 1) as usize;
        if children.contains(class) {
            let k = choose|k: int| 0 <= k < children.len() && children[k] == class;
            assert(costs.contains_key(children[k]));
        }
    }
}

/// A node is offered to its class in the very step in which its count
/// reaches zero, and at its total cost: telling a node changes the frontier
/// in no other case and in no other way.
pub proof fn lemma_offered_at_zero(egraph: &EGraph, run: Run, p: NodeId)
    requires
        p < egraph.nodes@.len(),
        run.pending.len() == egraph.nodes@.len(),
        run.pending[p as int] >= 1,
    ensures
        run.relax(egraph, p).frontier != run.frontier ==> {
            &&& !run.costs.contains_key(egraph.nodes@[p as int].eclass)
            &&& run.pending[p as int] == 1
            &&& run.relax(egraph, p).pending[p as int] == 0
            &&& run.relax(egraph, p).frontier == run.frontier.insert(
                egraph.nodes@[p as int].eclass,
                (Candidate { cost: node_total(egraph.nodes@[p as int], run.costs), node: p }),
            )
        },
{
}

/// Telling the nodes of a row lowers the count of each of them by one,
/// unless its class is settled, and leaves every other count as it is.
pub proof fn lemma_told_counts(egraph: &EGraph, run: Run, row: Seq<NodeId>, n: int)
    requires
        row.no_duplicates(),
        run.pending.len() == egraph.nodes@.len(),
        forall|i: int| 0 <= i < row.len() ==> #[trigger] row[i] < egraph.nodes@.len(),
        forall|i: int|
            0 <= i < row.len() && !run.costs.contains_key(egraph.nodes@[row[i] as int].eclass)
                ==> run.pending[#[trigger] row[i] as int] >= 1,
        0 <= n < egraph.nodes@.len(),
    ensures
        run.relax_all(egraph, row).pending.len() == run.pending.len(),
        run.relax_all(egraph, row).pending[n] == if row.contains(n as usize)
            && !run.costs.contains_key(egraph.nodes@[n].eclass) {
            run.pending[n] - 1
        } else {
            run.pending[n] as int
        },
    decreases row.len(),
{
    egraph.lemma_sizes();
    if row.len() > 0 {
        let front = row.drop_last();
        let last = row.last();
        assert forall|i: int| 0 <= i < front.len() implies front[i] == row[i] by {}
        assert(front.no_duplicates());
        lemma_told_counts(egraph, run, front, n);
        lemma_told_counts(egraph, run, front, last as int);
        lemma_telling_keeps_settled(egraph, run, front);
        assert(row[row.len() - 1] == last);
        assert(!front.contains(last)) by {
            if front.contains(last) {
                let i = choose|i: int| 0 <= i < front.len() && front[i] == last;
                assert(row[i] == row[row.len() - 1]);
            }
        }
        if row.contains(n as usize) && n != last {
            let i = choose|i: int| 0 <= i < row.len() && row[i] == n as usize;
            assert(front[i] == n as usize);
        }
        if front.contains(n as usize) {
            let i = choose|i: int| 0 <= i < front.len() && front[i] == n as usize;
            assert(row[i] == n as usize);
        }
    }
}

/// A node whose count is zero is told no more: the reverse index lists it
/// under no class that is still to be settled. So no node is offered twice.
pub proof fn lemma_ready_node_is_told_no_more(
    egraph: &EGraph,
    class_parents: &ClassParents,
    run: Run,
    n: int,
    class: ClassId,
)
    requires
        egraph.wf(),
        class_parents.indexes(egraph),
        run.inv(egraph),
        0 <= n < egraph.nodes@.len(),
        !run.costs.contains_key(egraph.nodes@[n].eclass),
        run.pending[n] == 0,
        class < egraph.classes@.len(),
        !run.costs.contains_key(class),
    ensures
        !class_parents.row(class as int).contains(n as usize),
{
    lemma_count_zero_iff_ready(egraph, run, n);
    class_parents.lemma_listed_iff_child(egraph, class, n);
    let children = egraph.nodes@[n].children@;
    if children.contains(class) {
        let k = choose|k: int| 0 <= k < children.len() && children[k] == class;
        assert(run.costs.contains_key(children[k]));
    }
}

/// Where every root is settled at a finite cost, or with a leaf as its
/// node, no walk from a root along the chosen nodes comes back to a class
/// that it has passed.
pub proof fn lemma_settled_roots_have_no_cycle(egraph: &EGraph, run: Run, roots: Seq<ClassId>)
    requires
        egraph.wf(),
        run.inv(egraph),
        run.complete(egraph),
        forall|i: int|
            0 <= i < roots.len() ==> {
                &&& #[trigger] roots[i] < egraph.classes@.len()
                &&& run.costs[roots[i]] < INFINITY || chosen_children(
                    egraph,
                    run.choices,
                    roots[i],
                ).len() == 0
            },
    ensures
        !has_cycle(egraph, run.choices, roots),
{
    let keep = |c: ClassId|
        run.costs.contains_key(c) && (run.costs[c] < INFINITY || chosen_children(
            egraph,
            run.choices,
            c,
        ).len() == 0);
    let none = Seq::<NodeId>::empty();
    assert forall|i: int, k: int|
        0 <= i < run.order.len() && keep(run.order[i]) && 0 <= k < chosen_children(
            egraph,
            run.choices,
            run.order[i],
        ).len() implies {
        &&& #[trigger] settled_before(
            run.order,
            chosen_children(egraph, run.choices, run.order[i])[k],
            i,
        )
        &&& keep(chosen_children(egraph, run.choices, run.order[i])[k])
    } by {
        let class = run.order[i];
        let children = chosen_children(egraph, run.choices, class);
        assert(run.order.contains(class));
        assert(best_hiding(egraph, run.costs, class as int, run.entry(class), none));
        assert(settled_before(
            run.order,
            egraph.nodes@[run.choices[run.order[i]] as int].children@[k],
            i,
        ));
        lemma_total_covers_child(children, run.costs, k);
        assert(children.contains(children[k]));
        if !run.costs.contains_key(children[k]) {
            lemma_total_of_unsettled(children, run.costs, children[k]);
        }
    }
    assert(ranked_among(egraph, run.choices, run.order, keep));
    assert forall|i: int| 0 <= i < roots.len() implies {
        &&& run.order.contains(#[trigger] roots[i])
        &&& keep(roots[i])
    } by {
        assert(run.costs.contains_key(roots[i]));
    }
    lemma_ranked_among_no_cycle(egraph, run.choices, roots, run.order, keep);
}

/// Once every class is settled, each has a choice that is one of its
/// nodes.
pub proof fn lemma_complete_run_selects(egraph: &EGraph, run: Run, class: ClassId)
    requires
        run.inv(egraph),
        run.complete(egraph),
        class < egraph.classes@.len(),
    ensures
        run.costs.contains_key(class),
        run.choices.contains_key(class),
        egraph.member(run.choices[class] as int, class as int),
        run.costs[class] == node_total(egraph.nodes@[run.choices[class] as int], run.costs),
        forall|n: int| #[trigger]
            egraph.member(n, class as int) ==> run.costs[class] <= node_total(
                egraph.nodes@[n],
                run.costs,
            ),
{
    let none = Seq::<NodeId>::empty();
    assert(best_hiding(egraph, run.costs, class as int, run.entry(class), none));
    assert forall|n: int| #[trigger] egraph.member(n, class as int) implies run.costs[class]
        <= node_total(egraph.nodes@[n], run.costs) by {
        assert(run.costs[class] <= seen_total(egraph, run.costs, none, n));
    }
}

/// No selection is cheaper: whatever node another selection chooses for
/// each class, the tree under a class costs at least what the class was
/// settled at, to whatever depth the tree is followed.
pub proof fn lemma_no_selection_is_cheaper(
    egraph: &EGraph,
    run: Run,
    other: Map<ClassId, NodeId>,
    depth: nat,
    class: ClassId,
)
    requires
        egraph.wf(),
        run.inv(egraph),
        run.complete(egraph),
        forall|c: ClassId|
            c < egraph.classes@.len() ==> egraph.member(#[trigger] other[c] as int, c as int),
        class < egraph.classes@.len(),
    ensures
        run.costs[class] <= cost_of(tree_costs(egraph, other, depth), class),
    decreases depth,
{
    if depth > 0 {
        lemma_tree_costs_step(egraph, other, depth);
        let node = other[class];
        assert(egraph.member(other[class] as int, class as int));
        assert(egraph.node_ok(node as int));
        let children = egraph.nodes@[node as int].children@;
        let below = tree_costs(egraph, other, (depth - 1) as nat);
        assert forall|i: int| 0 <= i < children.len() implies cost_of(
            run.costs,
            #[trigger] children[i],
        ) <= cost_of(below, children[i]) by {
            lemma_no_selection_is_cheaper(egraph, run, other, (depth - 1) as nat, children[i]);
        }
        lemma_total_monotone(children, run.costs, below);
        lemma_total_nonnegative(children, run.costs);
        lemma_complete_run_selects(egraph, run, class);
    }
}

/// Distinct numbers below a bound are no more than the bound.
pub proof fn lemma_distinct_below(s: Seq<usize>, bound: nat)
    requires
        s.no_duplicates(),
        forall|i: int| 0 <= i < s.len() ==> #[trigger] s[i] < bound,
    ensures
        s.len() <= bound,
    decreases bound,
{
    if bound == 0 {
        if s.len() > 0 {
            assert(s[0] < bound);
        }
    } else if exists|i: int| 0 <= i < s.len() && s[i] == bound - 1 {
        let at = choose|i: int| 0 <= i < s.len() && s[i] == bound - 1;
        let rest = s.remove(at);
        assert forall|j: int| 0 <= j < rest.len() implies #[trigger] rest[j] < bound - 1 by {
            if j < at {
                assert(rest[j] == s[j]);
            } else {
                assert(rest[j] == s[j + 1]);
            }
        }
        assert forall|j: int, k: int| 0 <= j < rest.len() && 0 <= k < rest.len() && j != k implies rest[j]
            != rest[k] by {
            let j2 = if j < at { j } else { j + 1 };
            let k2 = if k < at { k } else { k + 1 };
            assert(rest[j] == s[j2] && rest[k] == s[k2]);
        }
        lemma_distinct_below(rest, (bound - 1) as nat);
    } else {
        assert forall|j: int| 0 <= j < s.len() implies #[trigger] s[j] < bound - 1 by {
            assert(s[j] < bound);
        }
        lemma_distinct_below(s, (bound - 1) as nat);
    }
}

/// A class settled at a finite cost as the `i`-th has a tree of chosen
/// nodes under it that is at most `i + 1` nodes deep and costs no more
/// than the class was settled at.
proof fn lemma_tree_cost_reached(egraph: &EGraph, run: Run, i: int, depth: nat)
    requires
        egraph.wf(),
        run.inv(egraph),
        run.complete(egraph),
        0 <= i < run.order.len(),
        run.costs[run.order[i]] < INFINITY,
        depth > i,
    ensures
        run.order[i] < egraph.classes@.len(),
        cost_of(tree_costs(egraph, run.choices, depth), run.order[i]) <= run.costs[run.order[i]],
    decreases i,
{
    let class = run.order[i];
    assert(run.order.contains(class));
    lemma_complete_run_selects(egraph, run, class);
    lemma_tree_costs_step(egraph, run.choices, depth);
    let node = run.choices[class];
    assert(egraph.node_ok(node as int));
    let children = egraph.nodes@[node as int].children@;
    let below = tree_costs(egraph, run.choices, (depth - 1) as nat);
    lemma_total_nonnegative(children, run.costs);
    assert forall|k: int| 0 <= k < children.len() implies cost_of(below, #[trigger] children[k])
        <= cost_of(run.costs, children[k]) by {
        assert(settled_before(
            run.order,
            egraph.nodes@[run.choices[run.order[i]] as int].children@[k],
            i,
        ));
        let j = choose|j: int| 0 <= j < i && #[trigger] run.order[j] == children[k];
        lemma_total_covers_child(children, run.costs, k);
        assert(run.costs.contains_key(children[k]));
        lemma_tree_cost_reached(egraph, run, j, (depth - 1) as nat);
    }
    lemma_total_monotone(children, below, run.costs);
    lemma_total_nonnegative(children, below);
}

/// What a class was settled at is what the tree of chosen nodes under it
/// costs.
pub proof fn lemma_settled_cost_is_tree_cost(egraph: &EGraph, run: Run, class: ClassId)
    requires
        egraph.wf(),
        run.inv(egraph),
        run.complete(egraph),
        class < egraph.classes@.len(),
    ensures
        cost_of(tree_costs(egraph, run.choices, egraph.classes@.len()), class) == run.costs[class],
{
    assert forall|c: ClassId| c < egraph.classes@.len() implies egraph.member(
        #[trigger] run.choices[c] as int,
        c as int,
    ) by {
        lemma_complete_run_selects(egraph, run, c);
    }
    lemma_no_selection_is_cheaper(egraph, run, run.choices, egraph.classes@.len(), class);
    if run.costs[class] < INFINITY {
        assert(run.order.contains(class));
        let i = choose|i: int| 0 <= i < run.order.len() && run.order[i] == class;
        assert forall|j: int| 0 <= j < run.order.len() implies #[trigger] run.order[j]
            < egraph.classes@.len() by {
            assert(run.order.contains(run.order[j]));
        }
        lemma_distinct_below(run.order, egraph.classes@.len());
        lemma_tree_cost_reached(egraph, run, i, egraph.classes@.len());
    }
}

/// The settled costs are given by the graph: two extractions settle every
/// class at the same cost, whichever nodes they choose.
pub proof fn lemma_costs_are_given(egraph: &EGraph, one: Run, other: Run, class: ClassId)
    requires
        egraph.wf(),
        one.inv(egraph),
        one.complete(egraph),
        other.inv(egraph),
        other.complete(egraph),
        class < egraph.classes@.len(),
    ensures
        one.costs[class] == other.costs[class],
{
    assert forall|c: ClassId| c < egraph.classes@.len() implies egraph.member(
        #[trigger] one.choices[c] as int,
        c as int,
    ) by {
        lemma_complete_run_selects(egraph, one, c);
    }
    assert forall|c: ClassId| c < egraph.classes@.len() implies egraph.member(
        #[trigger] other.choices[c] as int,
        c as int,
    ) by {
        lemma_complete_run_selects(egraph, other, c);
    }
    lemma_settled_cost_is_tree_cost(egraph, one, class);
    lemma_settled_cost_is_tree_cost(egraph, other, class);
    lemma_no_selection_is_cheaper(egraph, one, other.choices, egraph.classes@.len(), class);
    lemma_no_selection_is_cheaper(egraph, other, one.choices, egraph.classes@.len(), class);
}

/// The costs of the first `upto` nodes, summed.
pub open spec fn all_costs(egraph: &EGraph, upto: nat) -> int
    decreases upto,
{
    if upto == 0 {
        0
    } else {
        all_costs(egraph, (upto - 1) as nat) + egraph.nodes@[upto - 1].cost
    }
}

/// The costs of those of the first `upto` nodes whose class is below
/// `classes`.
spec fn costs_below(egraph: &EGraph, upto: nat, classes: nat) -> int
    decreases upto,
{
    if upto == 0 {
        0
    } else {
        costs_below(egraph, (upto - 1) as nat, classes) + if egraph.nodes@[upto - 1].eclass
            < classes {
            egraph.nodes@[upto - 1].cost as int
        } else {
            0
        }
    }
}

/// The costs of the nodes chosen for the first `upto` classes.
spec fn chosen_costs(egraph: &EGraph, choices: Map<ClassId, NodeId>, upto: nat) -> int
    decreases upto,
{
    if upto == 0 {
        0
    } else {
        chosen_costs(egraph, choices, (upto - 1) as nat) + egraph.nodes@[choices[(upto
            - 1) as usize] as int].cost
    }
}

/// `only` is the one node of `class`.
spec fn only_node(egraph: &EGraph, class: ClassId, only: NodeId) -> bool {
    &&& egraph.member(only as int, class as int)
    &&& forall|n: int| #[trigger] egraph.member(n, class as int) ==> n == only
}

proof fn lemma_one_more_class(egraph: &EGraph, upto: nat, class: ClassId, only: NodeId)
    requires
        upto <= egraph.nodes@.len(),
        only_node(egraph, class, only),
    ensures
        costs_below(egraph, upto, (class + 1) as nat) == costs_below(egraph, upto, class as nat)
            + if only < upto {
            egraph.nodes@[only as int].cost as int
        } else {
            0
        },
    decreases upto,
{
    if upto > 0 {
        lemma_one_more_class(egraph, (upto - 1) as nat, class, only);
        let n = upto - 1;
        if egraph.nodes@[n].eclass == class {
            assert(egraph.member(n, class as int));
        }
    }
}

proof fn lemma_costs_below_none(egraph: &EGraph, upto: nat)
    ensures
        costs_below(egraph, upto, 0) == 0,
    decreases upto,
{
    if upto > 0 {
        lemma_costs_below_none(egraph, (upto - 1) as nat);
    }
}

proof fn lemma_costs_below_all(egraph: &EGraph, upto: nat)
    requires
        egraph.wf(),
        upto <= egraph.nodes@.len(),
    ensures
        costs_below(egraph, upto, egraph.classes@.len()) == all_costs(egraph, upto),
    decreases upto,
{
    if upto > 0 {
        lemma_costs_below_all(egraph, (upto - 1) as nat);
        assert(egraph.node_ok(upto - 1));
    }
}

proof fn lemma_chosen_costs(egraph: &EGraph, choices: Map<ClassId, NodeId>, upto: nat)
    requires
        egraph.wf(),
        upto <= egraph.classes@.len(),
        forall|c: ClassId| c < egraph.classes@.len() ==> only_node(egraph, c, #[trigger] choices[c]),
    ensures
        chosen_costs(egraph, choices, upto) == costs_below(egraph, egraph.nodes@.len(), upto),
    decreases upto,
{
    egraph.lemma_sizes();
    if upto == 0 {
        lemma_costs_below_none(egraph, egraph.nodes@.len());
    } else {
        let class = (upto - 1) as usize;
        lemma_chosen_costs(egraph, choices, (upto - 1) as nat);
        assert(only_node(egraph, class, choices[class]));
        lemma_one_more_class(egraph, egraph.nodes@.len(), class, choices[class]);
    }
}

proof fn lemma_dag_total_of_all(
    egraph: &EGraph,
    choices: Map<ClassId, NodeId>,
    roots: Seq<ClassId>,
    upto: nat,
)
    requires
        upto <= egraph.classes@.len(),
        forall|c: ClassId| c < egraph.classes@.len() ==> reaches(egraph, choices, roots, c),
    ensures
        dag_total(egraph, choices, roots, upto) == chosen_costs(egraph, choices, upto),
    decreases upto,
{
    egraph.lemma_sizes();
    if upto > 0 {
        lemma_dag_total_of_all(egraph, choices, roots, (upto - 1) as nat);
    }
}

/// In a graph whose classes have one node each, all of them reached from
/// the roots, the cost of the selection as a graph is the sum of the costs
/// of all nodes.
pub proof fn lemma_dag_cost_of_a_tree(
    egraph: &EGraph,
    choices: Map<ClassId, NodeId>,
    roots: Seq<ClassId>,
)
    requires
        egraph.wf(),
        forall|c: ClassId|
            c < egraph.classes@.len() ==> {
                &&& (#[trigger] egraph.classes@[c as int]).nodes@.len() == 1
                &&& egraph.member(choices[c] as int, c as int)
                &&& reaches(egraph, choices, roots, c)
            },
    ensures
        dag_total(egraph, choices, roots, egraph.classes@.len()) == all_costs(
            egraph,
            egraph.nodes@.len(),
        ),
        clip(dag_total(egraph, choices, roots, egraph.classes@.len())) == clip(
            all_costs(egraph, egraph.nodes@.len()),
        ),
{
    egraph.lemma_sizes();
    assert forall|c: ClassId| c < egraph.classes@.len() implies only_node(
        egraph,
        c,
        #[trigger] choices[c],
    ) by {
        assert(egraph.classes@[c as int].nodes@.len() == 1);
        assert forall|n: int| #[trigger] egraph.member(n, c as int) implies n == choices[c] by {
            assert(egraph.node_ok(n));
            assert(egraph.node_ok(choices[c] as int));
            let members = egraph.classes@[c as int].nodes@;
            let i = choose|i: int|
                0 <= i < members.len() && #[trigger] egraph.classes@[c as int].nodes@[i] == n;
            let j = choose|j: int|
                0 <= j < members.len() && #[trigger] egraph.classes@[c as int].nodes@[j]
                    == choices[c] as int;
            assert(i == 0 && j == 0);
        }
    }
    assert forall|c: ClassId| c < egraph.classes@.len() implies reaches(egraph, choices, roots, c) by {
        assert(egraph.classes@[c as int].nodes@.len() == 1);
    }
    lemma_dag_total_of_all(egraph, choices, roots, egraph.classes@.len());
    lemma_chosen_costs(egraph, choices, egraph.classes@.len());
    lemma_costs_below_all(egraph, egraph.nodes@.len());
}

} // verus!
