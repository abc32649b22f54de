//! What a selection costs: as a graph, where a class that several nodes use
//! is paid for once, and as a tree, where it is paid for at every use.

use vstd::prelude::*;
use crate::cost::{clip, cost_add, lemma_clip_absorbs, Cost, INFINITY};
use crate::egraph::{ClassId, EGraph, NodeId};
use crate::extract::cycles::{is_path, lemma_todo_count_update, todo_count, Mark};
use crate::extract::{
    children_total, chosen_children, cost_of, lemma_total_same, node_sum_cost, node_total,
    total_cost, ExtractionResult,
};
use crate::index_map::{cost_entries, get_cost, insert_cost, new_cost_map};

verus! {

/// `path` leads from a root to `class` along chosen nodes.
pub open spec fn is_walk_to(
    egraph: &EGraph,
    choices: Map<ClassId, NodeId>,
    roots: Seq<ClassId>,
    path: Seq<ClassId>,
    class: ClassId,
) -> bool {
    &&& path.len() >= 1
    &&& roots.contains(path[0])
    &&& is_path(egraph, choices, path)
    &&& path.last() == class
}

/// `class` is a root, or a child of the node chosen for a class that is
/// reached.
pub open spec fn reaches(
    egraph: &EGraph,
    choices: Map<ClassId, NodeId>,
    roots: Seq<ClassId>,
    class: ClassId,
) -> bool {
    exists|path: Seq<ClassId>| is_walk_to(egraph, choices, roots, path, class)
}

/// The costs of the nodes chosen for the classes below `upto` that the
/// roots reach, each class once.
pub open spec fn dag_total(
    egraph: &EGraph,
    choices: Map<ClassId, NodeId>,
    roots: Seq<ClassId>,
    upto: nat,
) -> int
    decreases upto,
{
    if upto == 0 {
        0
    } else {
        let class = (upto - 1) as usize;
        dag_total(egraph, choices, roots, (upto - 1) as nat) + if reaches(
            egraph,
            choices,
            roots,
            class,
        ) {
            egraph.nodes@[choices[class] as int].cost as int
        } else {
            0
        }
    }
}

/// What each class costs as a tree of chosen nodes that is at most `depth`
/// nodes deep; a class whose tree is deeper has no cost here, which counts
/// as infinite.
pub open spec fn tree_costs(egraph: &EGraph, choices: Map<ClassId, NodeId>, depth: nat) -> Map<
    ClassId,
    Cost,
>
    decreases depth,
{
    if depth == 0 {
        Map::empty()
    } else {
        Map::new(
            |c: ClassId| c < egraph.classes@.len(),
            |c: ClassId|
                node_total(
                    egraph.nodes@[choices[c] as int],
                    tree_costs(egraph, choices, (depth - 1) as nat),
                ),
        )
    }
}

/// What the roots cost as trees: a class is paid for as often as it is
/// used. No tree is deeper than there are classes unless it has a cycle, and
/// then it is infinite.
pub open spec fn tree_total(egraph: &EGraph, choices: Map<ClassId, NodeId>, roots: Seq<ClassId>) -> Cost {
    clip(children_total(roots, tree_costs(egraph, choices, egraph.classes@.len())))
}

/// One level deeper, a class costs what its chosen node costs over the
/// level before.
pub proof fn lemma_tree_costs_step(egraph: &EGraph, choices: Map<ClassId, NodeId>, depth: nat)
    requires
        depth > 0,
    ensures
        forall|c: ClassId| #[trigger]
            tree_costs(egraph, choices, depth).contains_key(c) <==> c < egraph.classes@.len(),
        forall|c: ClassId|
            c < egraph.classes@.len() ==> #[trigger] tree_costs(egraph, choices, depth)[c]
                == node_total(
                egraph.nodes@[choices[c] as int],
                tree_costs(egraph, choices, (depth - 1) as nat),
            ),
{
}

/// Two tables give every class of the graph the same cost.
pub open spec fn same_costs(egraph: &EGraph, a: Map<ClassId, Cost>, b: Map<ClassId, Cost>) -> bool {
    forall|c: ClassId| c < egraph.classes@.len() ==> cost_of(a, c) == cost_of(b, c)
}

/// A node costs the same under tables that give the same costs.
pub proof fn lemma_node_total_same(
    egraph: &EGraph,
    n: int,
    a: Map<ClassId, Cost>,
    b: Map<ClassId, Cost>,
)
    requires
        egraph.wf(),
        0 <= n < egraph.nodes@.len(),
        same_costs(egraph, a, b),
    ensures
        node_total(egraph.nodes@[n], a) == node_total(egraph.nodes@[n], b),
{
    assert(egraph.node_ok(n));
    lemma_total_same(egraph.nodes@[n].children@, a, b);
}

/// Once a level deeper changes no cost, no deeper level does.
pub proof fn lemma_tree_costs_stable(
    egraph: &EGraph,
    choices: Map<ClassId, NodeId>,
    depth: nat,
    deeper: nat,
)
    requires
        egraph.wf(),
        forall|c: ClassId| c < egraph.classes@.len() ==> choices[c] < egraph.nodes@.len(),
        same_costs(
            egraph,
            tree_costs(egraph, choices, depth + 1),
            tree_costs(egraph, choices, depth),
        ),
        depth <= deeper,
    ensures
        same_costs(egraph, tree_costs(egraph, choices, deeper), tree_costs(egraph, choices, depth)),
    decreases deeper,
{
    if deeper > depth {
        lemma_tree_costs_stable(egraph, choices, depth, (deeper - 1) as nat);
        lemma_tree_costs_step(egraph, choices, deeper);
        lemma_tree_costs_step(egraph, choices, depth + 1);
        assert forall|c: ClassId| c < egraph.classes@.len() implies cost_of(
            tree_costs(egraph, choices, deeper),
            c,
        ) == cost_of(tree_costs(egraph, choices, depth), c) by {
            lemma_node_total_same(
                egraph,
                choices[c] as int,
                tree_costs(egraph, choices, (deeper - 1) as nat),
                tree_costs(egraph, choices, depth),
            );
            assert(cost_of(tree_costs(egraph, choices, depth + 1), c) == cost_of(
                tree_costs(egraph, choices, depth),
                c,
            ));
        }
    }
}

/// What holds while the classes that the roots reach are collected: what
/// is marked or waits in `todo` is reached, and the roots and the children
/// of what is marked are marked or wait.
pub open spec fn sweeping(
    egraph: &EGraph,
    choices: Map<ClassId, NodeId>,
    roots: Seq<ClassId>,
    marks: Seq<Mark>,
    todo: Seq<ClassId>,
) -> bool {
    &&& marks.len() == egraph.classes@.len()
    &&& forall|i: int|
        0 <= i < todo.len() ==> {
            &&& #[trigger] todo[i] < marks.len()
            &&& reaches(egraph, choices, roots, todo[i])
        }
    &&& forall|c: ClassId|
        c < marks.len() && #[trigger] marks[c as int] is Done ==> reaches(egraph, choices, roots, c)
    &&& forall|c: ClassId| c < marks.len() ==> !(#[trigger] marks[c as int] is Doing)
    &&& forall|c: ClassId, k: int|
        c < marks.len() && marks[c as int] is Done && 0 <= k < chosen_children(
            egraph,
            choices,
            c,
        ).len() ==> {
            &&& #[trigger] chosen_children(egraph, choices, c)[k] < marks.len()
            &&& marks[chosen_children(egraph, choices, c)[k] as int] is Done || todo.contains(
                chosen_children(egraph, choices, c)[k],
            )
        }
}

/// A root is reached.
pub proof fn lemma_root_reached(
    egraph: &EGraph,
    choices: Map<ClassId, NodeId>,
    roots: Seq<ClassId>,
    i: int,
)
    requires
        0 <= i < roots.len(),
    ensures
        reaches(egraph, choices, roots, roots[i]),
{
    let path = seq![roots[i]];
    assert(path[0] == roots[i]);
    assert(is_walk_to(egraph, choices, roots, path, roots[i]));
}

/// The children of the node chosen for a reached class are reached.
pub proof fn lemma_child_reached(
    egraph: &EGraph,
    choices: Map<ClassId, NodeId>,
    roots: Seq<ClassId>,
    class: ClassId,
    k: int,
)
    requires
        reaches(egraph, choices, roots, class),
        0 <= k < chosen_children(egraph, choices, class).len(),
    ensures
        reaches(egraph, choices, roots, chosen_children(egraph, choices, class)[k]),
{
    let child = chosen_children(egraph, choices, class)[k];
    let path = choose|path: Seq<ClassId>| is_walk_to(egraph, choices, roots, path, class);
    let longer = path.push(child);
    assert(longer[0] == path[0]);
    assert forall|i: int| 0 <= i < longer.len() - 1 implies chosen_children(
        egraph,
        choices,
        #[trigger] longer[i],
    ).contains(longer[i + 1]) by {
        if i < path.len() - 1 {
            assert(chosen_children(egraph, choices, path[i]).contains(path[i + 1]));
        }
    }
    assert(is_walk_to(egraph, choices, roots, longer, child));
}

/// Marks that hold the roots, and with each class the children of its
/// chosen node, hold whatever the roots reach.
pub proof fn lemma_closed_holds_reached(
    egraph: &EGraph,
    choices: Map<ClassId, NodeId>,
    roots: Seq<ClassId>,
    marks: Seq<Mark>,
    path: Seq<ClassId>,
    i: int,
)
    requires
        sweeping(egraph, choices, roots, marks, Seq::empty()),
        forall|r: int|
            0 <= r < roots.len() ==> {
                &&& #[trigger] roots[r] < marks.len()
                &&& marks[roots[r] as int] is Done
            },
        path.len() >= 1,
        roots.contains(path[0]),
        is_path(egraph, choices, path),
        0 <= i < path.len(),
    ensures
        path[i] < marks.len(),
        marks[path[i] as int] is Done,
    decreases i,
{
    if i == 0 {
        let r = choose|r: int| 0 <= r < roots.len() && roots[r] == path[0];
        assert(marks[roots[r] as int] is Done);
    } else {
        lemma_closed_holds_reached(egraph, choices, roots, marks, path, i - 1);
        let children = chosen_children(egraph, choices, path[i - 1]);
        assert(children.contains(path[i]));
        let k = choose|k: int| 0 <= k < children.len() && children[k] == path[i];
        assert(chosen_children(egraph, choices, path[i - 1])[k] < marks.len());
    }
}

impl ExtractionResult {
    /// Marks the classes that the roots reach.
    fn reached(&self, egraph: &EGraph, roots: &[ClassId]) -> (marks: Vec<Mark>)
        requires
            egraph.wf(),
            self.selects(egraph),
            forall|i: int| 0 <= i < roots@.len() ==> #[trigger] roots@[i] < egraph.classes@.len(),
        ensures
            marks@.len() == egraph.classes@.len(),
            forall|c: ClassId|
                c < marks@.len() ==> (#[trigger] marks@[c as int] is Done <==> reaches(
                    egraph,
                    self@,
                    roots@,
                    c,
                )),
    {
        let n_classes = egraph.classes.len();
        let mut marks: Vec<Mark> = Vec::new();
        while marks.len() < n_classes
            invariant
                marks@.len() <= n_classes,
                forall|c: int| 0 <= c < marks@.len() ==> marks@[c] is Todo,
            decreases n_classes - marks@.len(),
        {
            marks.push(Mark::Todo);
        }
        let mut todo: Vec<ClassId> = Vec::new();
        let mut r: usize = 0;
        while r < roots.len()
            invariant
                r <= roots@.len(),
                forall|i: int| 0 <= i < roots@.len() ==> #[trigger] roots@[i] < egraph.classes@.len(),
                todo@ == roots@.take(r as int),
            decreases roots@.len() - r,
        {
            todo.push(roots[r]);
            assert(roots@.take(r as int + 1) =~= roots@.take(r as int).push(roots@[r as int]));
            r += 1;
        }
        proof {
            assert(todo@ =~= roots@);
            assert forall|i: int| 0 <= i < todo@.len() implies {
                &&& #[trigger] todo@[i] < marks@.len()
                &&& reaches(egraph, self@, roots@, todo@[i])
            } by {
                lemma_root_reached(egraph, self@, roots@, i);
            }
            assert forall|i: int| 0 <= i < roots@.len() implies todo@.contains(#[trigger] roots@[i]) by {
                assert(todo@[i] == roots@[i]);
            }
        }
        while todo.len() > 0
            invariant
                n_classes == egraph.classes@.len(),
                egraph.wf(),
                self.selects(egraph),
                sweeping(egraph, self@, roots@, marks@, todo@),
                forall|i: int|
                    0 <= i < roots@.len() ==> {
                        &&& #[trigger] roots@[i] < marks@.len()
                        &&& marks@[roots@[i] as int] is Done || todo@.contains(roots@[i])
                    },
            decreases todo_count(marks@), todo@.len(),
        {
            let ghost marks_before = marks@;
            let ghost todo_before = todo@;
            let class = todo.pop().unwrap();
            assert(todo_before[todo_before.len() - 1] == class);
            proof {
                assert forall|x: ClassId| todo_before.contains(x) implies x == class
                    || todo@.contains(x) by {
                    let i = choose|i: int| 0 <= i < todo_before.len() && todo_before[i] == x;
                    if i < todo@.len() {
                        assert(todo@[i] == x);
                    }
                }
            }
            match marks[class] {
                Mark::Todo => {
                    proof {
                        lemma_todo_count_update(marks@, class as int, Mark::Done);
                    }
                    marks.set(class, Mark::Done);
                    assert(self.selected(egraph, class));
                    let node = self.chosen(class);
                    assert(egraph.node_ok(node as int));
                    let children = &egraph.nodes[node].children;
                    let ghost todo_popped = todo@;
                    let mut k: usize = 0;
                    while k < children.len()
                        invariant
                            k <= children@.len(),
                            children@ == chosen_children(egraph, self@, class),
                            egraph.node_ok(node as int),
                            node == self@[class],
                            class < marks@.len(),
                            marks@.len() == egraph.classes@.len(),
                            reaches(egraph, self@, roots@, class),
                            todo@ == todo_popped + children@.take(k as int),
                            forall|i: int|
                                0 <= i < todo@.len() ==> {
                                    &&& #[trigger] todo@[i] < marks@.len()
                                    &&& reaches(egraph, self@, roots@, todo@[i])
                                },
                        decreases children@.len() - k,
                    {
                        proof {
                            lemma_child_reached(egraph, self@, roots@, class, k as int);
                            assert(children@.take(k as int + 1) =~= children@.take(k as int).push(
                                children@[k as int],
                            ));
                        }
                        todo.push(children[k]);
                        assert(todo@ =~= todo_popped + children@.take(k as int + 1));
                        k += 1;
                    }
                    proof {
                        assert(children@.take(k as int) =~= children@);
                        assert forall|x: ClassId| todo_popped.contains(x) implies todo@.contains(
                            x,
                        ) by {
                            let i = choose|i: int| 0 <= i < todo_popped.len() && todo_popped[i] == x;
                            assert(todo@[i] == x);
                        }
                        assert forall|c: ClassId, h: int|
                            c < marks@.len() && marks@[c as int] is Done && 0 <= h
                                < chosen_children(egraph, self@, c).len() implies {
                            &&& #[trigger] chosen_children(egraph, self@, c)[h] < marks@.len()
                            &&& marks@[chosen_children(egraph, self@, c)[h] as int] is Done
                                || todo@.contains(chosen_children(egraph, self@, c)[h])
                        } by {
                            let child = chosen_children(egraph, self@, c)[h];
                            if c == class {
                                assert(todo@[todo_popped.len() + h] == child);
                                assert(egraph.nodes@[node as int].children@[h] < egraph.classes@.len());
                            } else {
                                assert(marks_before[c as int] is Done);
                                assert(chosen_children(egraph, self@, c)[h] < marks_before.len());
                                if todo_before.contains(child) && child != class {
                                    assert(todo_popped.contains(child));
                                }
                            }
                        }
                    }
                },
                _ => {
                    proof {
                        assert forall|c: ClassId, h: int|
                            c < marks@.len() && marks@[c as int] is Done && 0 <= h
                                < chosen_children(egraph, self@, c).len() implies {
                            &&& #[trigger] chosen_children(egraph, self@, c)[h] < marks@.len()
                            &&& marks@[chosen_children(egraph, self@, c)[h] as int] is Done
                                || todo@.contains(chosen_children(egraph, self@, c)[h])
                        } by {
                            let child = chosen_children(egraph, self@, c)[h];
                            assert(chosen_children(egraph, self@, c)[h] < marks_before.len());
                        }
                    }
                },
            }
        }
        proof {
            assert(todo@ =~= Seq::<ClassId>::empty());
            assert forall|c: ClassId| c < marks@.len() && reaches(
                egraph,
                self@,
                roots@,
                c,
            ) implies #[trigger] marks@[c as int] is Done by {
                let path = choose|path: Seq<ClassId>| is_walk_to(egraph, self@, roots@, path, c);
                lemma_closed_holds_reached(egraph, self@, roots@, marks@, path, path.len() - 1);
            }
        }
        marks
    }

    /// The cost of the selection as a graph: the cost of the node chosen
    /// for each class that the roots reach, each class once.
    pub fn dag_cost(&self, egraph: &EGraph, roots: &[ClassId]) -> (total: Cost)
        requires
            egraph.wf(),
            self.selects(egraph),
            forall|i: int| 0 <= i < roots@.len() ==> #[trigger] roots@[i] < egraph.classes@.len(),
        ensures
            total == clip(dag_total(egraph, self@, roots@, egraph.classes@.len())),
    {
        let marks = self.reached(egraph, roots);
        let n_classes = egraph.classes.len();
        let mut total: Cost = 0;
        let mut c: usize = 0;
        while c < n_classes
            invariant
                c <= n_classes,
                n_classes == egraph.classes@.len(),
                marks@.len() == n_classes,
                self.selects(egraph),
                forall|d: ClassId|
                    d < marks@.len() ==> (#[trigger] marks@[d as int] is Done <==> reaches(
                        egraph,
                        self@,
                        roots@,
                        d,
                    )),
                dag_total(egraph, self@, roots@, c as nat) >= 0,
                total == clip(dag_total(egraph, self@, roots@, c as nat)),
            decreases n_classes - c,
        {
            match marks[c] {
                Mark::Done => {
                    assert(self.selected(egraph, c));
                    let node = self.chosen(c);
                    proof {
                        lemma_clip_absorbs(
                            egraph.nodes@[node as int].cost as int,
                            dag_total(egraph, self@, roots@, c as nat),
                        );
                    }
                    total = cost_add(total, egraph.nodes[node].cost);
                },
                _ => {},
            }
            c += 1;
        }
        total
    }

    /// The cost of the selection as trees under the roots: a class that is
    /// used twice is paid for twice. Infinite where a root leads into a
    /// cycle.
    pub fn tree_cost(&self, egraph: &EGraph, roots: &[ClassId]) -> (total: Cost)
        requires
            egraph.wf(),
            self.selects(egraph),
            forall|i: int| 0 <= i < roots@.len() ==> #[trigger] roots@[i] < egraph.classes@.len(),
        ensures
            total == tree_total(egraph, self@, roots@),
    {
        let n_classes = egraph.classes.len();
        let mut table = new_cost_map();
        let mut depth: usize = 0;
        let mut stable = false;
        assert(cost_entries(table) =~= tree_costs(egraph, self@, 0));
        while depth < n_classes && !stable
            invariant
                depth <= n_classes,
                n_classes == egraph.classes@.len(),
                egraph.wf(),
                self.selects(egraph),
                same_costs(egraph, cost_entries(table), tree_costs(egraph, self@, depth as nat)),
                stable ==> same_costs(
                    egraph,
                    tree_costs(egraph, self@, n_classes as nat),
                    tree_costs(egraph, self@, depth as nat),
                ),
            decreases n_classes - depth, if stable { 0int } else { 1int },
        {
            let mut next = new_cost_map();
            let mut changed = false;
            let mut c: usize = 0;
            while c < n_classes
                invariant
                    c <= n_classes,
                    n_classes == egraph.classes@.len(),
                    egraph.wf(),
                    self.selects(egraph),
                    same_costs(egraph, cost_entries(table), tree_costs(egraph, self@, depth as nat)),
                    forall|d: ClassId| cost_entries(next).contains_key(d) <==> d < c,
                    forall|d: ClassId|
                        d < c ==> cost_entries(next)[d] == #[trigger] tree_costs(
                            egraph,
                            self@,
                            (depth + 1) as nat,
                        )[d],
                    !changed ==> forall|d: ClassId|
                        d < c ==> cost_of(
                            tree_costs(egraph, self@, (depth + 1) as nat),
                            d,
                        ) == cost_of(tree_costs(egraph, self@, depth as nat), d),
                decreases n_classes - c,
            {
                assert(self.selected(egraph, c));
                let node = self.chosen(c);
                let cost = node_sum_cost(&egraph.nodes[node], &table);
                let held = match get_cost(&table, c) {
                    Some(held) => held,
                    None => INFINITY,
                };
                proof {
                    lemma_node_total_same(
                        egraph,
                        node as int,
                        cost_entries(table),
                        tree_costs(egraph, self@, depth as nat),
                    );
                    lemma_tree_costs_step(egraph, self@, (depth + 1) as nat);
                }
                if cost != held {
                    changed = true;
                }
                insert_cost(&mut next, c, cost);
                c += 1;
            }
            proof {
                lemma_tree_costs_step(egraph, self@, (depth + 1) as nat);
                if !changed {
                    assert forall|d: ClassId| d < egraph.classes@.len() implies self@[d]
                        < egraph.nodes@.len() by {
                        assert(self.selected(egraph, d));
                    }
                    lemma_tree_costs_stable(egraph, self@, depth as nat, n_classes as nat);
                }
            }
            table = next;
            depth += 1;
            if !changed {
                stable = true;
            }
        }
        proof {
            lemma_total_same(
                roots@,
                cost_entries(table),
                tree_costs(egraph, self@, egraph.classes@.len()),
            );
        }
        total_cost(roots, &table)
    }
}

} // verus!
