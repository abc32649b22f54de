//! What a node costs under the costs settled so far: its own cost and the
//! costs of its children's classes, each as often as the node names it.

use vstd::prelude::*;
use indexmap::IndexMap;
use crate::cost::{clip, cost_add, lemma_clip_absorbs, Cost, INFINITY};
use crate::egraph::{ClassId, Node};
use crate::index_map::{cost_entries, get_cost};

verus! {

/// The cost settled for a class; infinite where none is settled.
pub open spec fn cost_of(costs: Map<ClassId, Cost>, class: ClassId) -> Cost {
    if costs.contains_key(class) {
        costs[class]
    } else {
        INFINITY
    }
}

/// The sum of the costs of the classes in `children`, each counted as often
/// as it occurs.
pub open spec fn children_total(children: Seq<ClassId>, costs: Map<ClassId, Cost>) -> int
    decreases children.len(),
{
    if children.len() == 0 {
        0
    } else {
        children_total(children.drop_last(), costs) + cost_of(costs, children.last())
    }
}

/// What a node costs in all: its own cost and the costs of its children.
pub open spec fn node_total(node: Node, costs: Map<ClassId, Cost>) -> Cost {
    clip(node.cost + children_total(node.children@, costs))
}

/// A total is at least the cost of each child, and never negative.
pub proof fn lemma_total_covers_child(children: Seq<ClassId>, costs: Map<ClassId, Cost>, i: int)
    requires
        0 <= i < children.len(),
    ensures
        children_total(children, costs) >= cost_of(costs, children[i]),
        children_total(children, costs) >= 0,
    decreases children.len(),
{
    lemma_total_nonnegative(children.drop_last(), costs);
    if i < children.len() - 1 {
        lemma_total_covers_child(children.drop_last(), costs, i);
    }
}

/// A total is never negative.
pub proof fn lemma_total_nonnegative(children: Seq<ClassId>, costs: Map<ClassId, Cost>)
    ensures
        children_total(children, costs) >= 0,
    decreases children.len(),
{
    if children.len() > 0 {
        lemma_total_nonnegative(children.drop_last(), costs);
    }
}

/// A child without a settled cost makes the total infinite.
pub proof fn lemma_total_of_unsettled(
    children: Seq<ClassId>,
    costs: Map<ClassId, Cost>,
    class: ClassId,
)
    requires
        children.contains(class),
        !costs.contains_key(class),
    ensures
        children_total(children, costs) >= INFINITY,
{
    let i = choose|i: int| 0 <= i < children.len() && children[i] == class;
    lemma_total_covers_child(children, costs, i);
}

/// Settling a class that is not among the children leaves the total as it was.
pub proof fn lemma_total_without(
    children: Seq<ClassId>,
    costs: Map<ClassId, Cost>,
    class: ClassId,
    cost: Cost,
)
    requires
        !children.contains(class),
    ensures
        children_total(children, costs.insert(class, cost)) == children_total(children, costs),
    decreases children.len(),
{
    if children.len() > 0 {
        let front = children.drop_last();
        assert forall|x: ClassId| front.contains(x) implies children.contains(x) by {
            let i = choose|i: int| 0 <= i < front.len() && front[i] == x;
            assert(children[i] == x);
        }
        lemma_total_without(front, costs, class, cost);
        assert(children[children.len() - 1] == children.last());
    }
}

/// What settling a class does to a total: nothing where the class is not
/// among the children; where it is, the total was infinite before and is at
/// least the settled cost after.
pub proof fn lemma_total_after_settling(
    children: Seq<ClassId>,
    costs: Map<ClassId, Cost>,
    class: ClassId,
    cost: Cost,
)
    requires
        !costs.contains_key(class),
    ensures
        children_total(children, costs) >= 0,
        children_total(children, costs.insert(class, cost)) >= 0,
        children.contains(class) ==> children_total(children, costs) >= INFINITY
            && children_total(children, costs.insert(class, cost)) >= cost,
        !children.contains(class) ==> children_total(children, costs.insert(class, cost))
            == children_total(children, costs),
{
    lemma_total_nonnegative(children, costs);
    lemma_total_nonnegative(children, costs.insert(class, cost));
    if children.contains(class) {
        let i = choose|i: int| 0 <= i < children.len() && children[i] == class;
        lemma_total_covers_child(children, costs, i);
        lemma_total_covers_child(children, costs.insert(class, cost), i);
    } else {
        lemma_total_without(children, costs, class, cost);
    }
}

/// Totals go by the costs of the classes summed and by nothing else.
pub proof fn lemma_total_same(
    children: Seq<ClassId>,
    a: Map<ClassId, Cost>,
    b: Map<ClassId, Cost>,
)
    requires
        forall|i: int|
            0 <= i < children.len() ==> cost_of(a, #[trigger] children[i]) == cost_of(
                b,
                children[i],
            ),
    ensures
        children_total(children, a) == children_total(children, b),
    decreases children.len(),
{
    if children.len() > 0 {
        let front = children.drop_last();
        assert forall|i: int| 0 <= i < front.len() implies cost_of(a, #[trigger] front[i])
            == cost_of(b, front[i]) by {
            assert(front[i] == children[i]);
        }
        lemma_total_same(front, a, b);
        assert(children[children.len() - 1] == children.last());
    }
}

/// Where no class costs more, the total is no greater.
pub proof fn lemma_total_monotone(
    children: Seq<ClassId>,
    a: Map<ClassId, Cost>,
    b: Map<ClassId, Cost>,
)
    requires
        forall|i: int|
            0 <= i < children.len() ==> cost_of(a, #[trigger] children[i]) <= cost_of(
                b,
                children[i],
            ),
    ensures
        children_total(children, a) <= children_total(children, b),
    decreases children.len(),
{
    if children.len() > 0 {
        let front = children.drop_last();
        assert forall|i: int| 0 <= i < front.len() implies cost_of(a, #[trigger] front[i])
            <= cost_of(b, front[i]) by {
            assert(front[i] == children[i]);
        }
        lemma_total_monotone(front, a, b);
        assert(children[children.len() - 1] == children.last());
    }
}

/// The sum of the costs of `classes`, each counted as often as it is
/// listed; a class without a cost counts as infinite.
pub fn total_cost(classes: &[ClassId], costs: &IndexMap<ClassId, Cost>) -> (total: Cost)
    ensures
        total == clip(children_total(classes@, cost_entries(*costs))),
{
    let mut total: Cost = 0;
    let mut i: usize = 0;
    while i < classes.len()
        invariant
            i <= classes@.len(),
            total == clip(children_total(classes@.take(i as int), cost_entries(*costs))),
            children_total(classes@.take(i as int), cost_entries(*costs)) >= 0,
        decreases classes@.len() - i,
    {
        let class_cost = match get_cost(costs, classes[i]) {
            Some(cost) => cost,
            None => INFINITY,
        };
        proof {
            let done = classes@.take(i as int);
            let next = classes@.take(i as int + 1);
            assert(next.drop_last() =~= done);
            assert(next.last() == classes@[i as int]);
            lemma_clip_absorbs(class_cost as int, children_total(done, cost_entries(*costs)));
        }
        total = cost_add(total, class_cost);
        i += 1;
    }
    assert(classes@.take(i as int) =~= classes@);
    total
}

/// The cost of `node` under the costs settled so far: its own cost plus, for
/// each child as often as it is listed, the cost of that class, infinite
/// where the class is not settled.
pub fn node_sum_cost(node: &Node, costs: &IndexMap<ClassId, Cost>) -> (total: Cost)
    ensures
        total == node_total(*node, cost_entries(*costs)),
{
    let mut total = node.cost;
    let mut i: usize = 0;
    while i < node.children.len()
        invariant
            i <= node.children@.len(),
            total == clip(
                node.cost + children_total(node.children@.take(i as int), cost_entries(*costs)),
            ),
            children_total(node.children@.take(i as int), cost_entries(*costs)) >= 0,
        decreases node.children@.len() - i,
    {
        let child_cost = match get_cost(costs, node.children[i]) {
            Some(cost) => cost,
            None => INFINITY,
        };
        proof {
            let done = node.children@.take(i as int);
            let next = node.children@.take(i as int + 1);
            assert(next.drop_last() =~= done);
            assert(next.last() == node.children@[i as int]);
            lemma_clip_absorbs(child_cost as int, node.cost + children_total(done, cost_entries(*costs)));
        }
        total = cost_add(total, child_cost);
        i += 1;
    }
    assert(node.children@.take(i as int) =~= node.children@);
    total
}

} // verus!
