//! The check that a selection holds no cycle: no walk from a root, from
//! each class to a child of its chosen node, comes back to a class that it
//! has passed.

use vstd::prelude::*;
use crate::egraph::{ClassId, EGraph, NodeId};
use crate::extract::{chosen_children, settled_before, ExtractionResult};

verus! {

/// Each class of `path` but the first is a child of the node chosen for the
/// class before it.
pub open spec fn is_path(egraph: &EGraph, choices: Map<ClassId, NodeId>, path: Seq<ClassId>) -> bool {
    forall|i: int|
        0 <= i < path.len() - 1 ==> chosen_children(egraph, choices, #[trigger] path[i]).contains(
            path[i + 1],
        )
}

/// `path` starts at a root and ends at a class that it has passed before.
pub open spec fn is_cycle_walk(
    egraph: &EGraph,
    choices: Map<ClassId, NodeId>,
    roots: Seq<ClassId>,
    path: Seq<ClassId>,
) -> bool {
    &&& path.len() >= 2
    &&& roots.contains(path[0])
    &&& is_path(egraph, choices, path)
    &&& exists|i: int| 0 <= i < path.len() - 1 && #[trigger] path[i] == path.last()
}

/// Some walk from a root comes back to `class`.
pub open spec fn closes_cycle(
    egraph: &EGraph,
    choices: Map<ClassId, NodeId>,
    roots: Seq<ClassId>,
    class: ClassId,
) -> bool {
    exists|path: Seq<ClassId>| #[trigger]
        is_cycle_walk(egraph, choices, roots, path) && path.last() == class
}

/// Some walk from a root comes back to a class that it has passed.
pub open spec fn has_cycle(egraph: &EGraph, choices: Map<ClassId, NodeId>, roots: Seq<ClassId>) -> bool {
    exists|path: Seq<ClassId>| is_cycle_walk(egraph, choices, roots, path)
}

/// `rank` lists classes, each once, so that for each listed class that
/// `keep` holds of, the children of its chosen node stand before it, and
/// `keep` holds of them too.
pub open spec fn ranked_among(
    egraph: &EGraph,
    choices: Map<ClassId, NodeId>,
    rank: Seq<ClassId>,
    keep: spec_fn(ClassId) -> bool,
) -> bool {
    &&& rank.no_duplicates()
    &&& forall|i: int, k: int|
        0 <= i < rank.len() && keep(rank[i]) && 0 <= k < chosen_children(
            egraph,
            choices,
            rank[i],
        ).len() ==> {
            &&& #[trigger] settled_before(rank, chosen_children(egraph, choices, rank[i])[k], i)
            &&& keep(chosen_children(egraph, choices, rank[i])[k])
        }
}

/// `rank` lists classes, each once, so that the children of the node chosen
/// for a class stand before the class.
pub open spec fn ranked(egraph: &EGraph, choices: Map<ClassId, NodeId>, rank: Seq<ClassId>) -> bool {
    &&& rank.no_duplicates()
    &&& forall|i: int, k: int|
        0 <= i < rank.len() && 0 <= k < chosen_children(egraph, choices, rank[i]).len()
            ==> #[trigger] settled_before(rank, chosen_children(egraph, choices, rank[i])[k], i)
}

/// Where `class` stands in `rank`.
pub open spec fn position(rank: Seq<ClassId>, class: ClassId) -> int {
    choose|i: int| 0 <= i < rank.len() && rank[i] == class
}

/// Along a path that starts at a listed class that `keep` holds of, the
/// position in `rank` goes down with every step.
pub proof fn lemma_ranked_descent(
    egraph: &EGraph,
    choices: Map<ClassId, NodeId>,
    rank: Seq<ClassId>,
    keep: spec_fn(ClassId) -> bool,
    path: Seq<ClassId>,
    from: int,
    to: int,
)
    requires
        ranked_among(egraph, choices, rank, keep),
        is_path(egraph, choices, path),
        0 <= from <= to < path.len(),
        rank.contains(path[from]),
        keep(path[from]),
    ensures
        rank.contains(path[to]),
        keep(path[to]),
        position(rank, path[to]) + (to - from) <= position(rank, path[from]),
    decreases to - from,
{
    if from < to {
        lemma_ranked_descent(egraph, choices, rank, keep, path, from, to - 1);
        let at = position(rank, path[to - 1]);
        let children = chosen_children(egraph, choices, path[to - 1]);
        assert(children.contains(path[to]));
        let k = choose|k: int| 0 <= k < children.len() && children[k] == path[to];
        assert(settled_before(rank, chosen_children(egraph, choices, rank[at])[k], at));
        let j = choose|j: int| 0 <= j < at && #[trigger] rank[j] == path[to];
        assert(rank.contains(path[to]));
        assert(position(rank, path[to]) == j);
    }
}

/// A ranking that holds the roots, with `keep` true of them, rules out
/// cycles.
pub proof fn lemma_ranked_among_no_cycle(
    egraph: &EGraph,
    choices: Map<ClassId, NodeId>,
    roots: Seq<ClassId>,
    rank: Seq<ClassId>,
    keep: spec_fn(ClassId) -> bool,
)
    requires
        ranked_among(egraph, choices, rank, keep),
        forall|i: int|
            0 <= i < roots.len() ==> {
                &&& rank.contains(#[trigger] roots[i])
                &&& keep(roots[i])
            },
    ensures
        !has_cycle(egraph, choices, roots),
{
    assert forall|path: Seq<ClassId>| !is_cycle_walk(egraph, choices, roots, path) by {
        if is_cycle_walk(egraph, choices, roots, path) {
            let r = choose|r: int| 0 <= r < roots.len() && roots[r] == path[0];
            assert(rank.contains(roots[r]));
            let i = choose|i: int| 0 <= i < path.len() - 1 && #[trigger] path[i] == path.last();
            lemma_ranked_descent(egraph, choices, rank, keep, path, 0, i);
            lemma_ranked_descent(egraph, choices, rank, keep, path, i, path.len() - 1);
        }
    }
}

/// A ranking that holds the roots rules out cycles.
pub proof fn lemma_ranked_no_cycle(
    egraph: &EGraph,
    choices: Map<ClassId, NodeId>,
    roots: Seq<ClassId>,
    rank: Seq<ClassId>,
)
    requires
        ranked(egraph, choices, rank),
        forall|i: int| 0 <= i < roots.len() ==> rank.contains(#[trigger] roots[i]),
    ensures
        !has_cycle(egraph, choices, roots),
{
    let keep = |c: ClassId| true;
    assert(ranked_among(egraph, choices, rank, keep));
    lemma_ranked_among_no_cycle(egraph, choices, roots, rank, keep);
}

/// How far the search has come with a class.
#[derive(Clone, Copy)]
pub enum Mark {
    /// Not reached yet.
    Todo,
    /// Reached, and on the walk that the search is following.
    Doing,
    /// Done with, and all that it leads to.
    Done,
}

/// The number of classes not reached yet.
pub open spec fn todo_count(marks: Seq<Mark>) -> nat
    decreases marks.len(),
{
    if marks.len() == 0 {
        0
    } else {
        todo_count(marks.drop_last()) + if marks.last() is Todo {
            1nat
        } else {
            0nat
        }
    }
}

/// Changing one mark changes the count by what that mark adds or takes.
pub proof fn lemma_todo_count_update(marks: Seq<Mark>, at: int, mark: Mark)
    requires
        0 <= at < marks.len(),
    ensures
        todo_count(marks.update(at, mark)) + (if marks[at] is Todo {
            1nat
        } else {
            0nat
        }) == todo_count(marks) + (if mark is Todo {
            1nat
        } else {
            0nat
        }),
    decreases marks.len(),
{
    if at == marks.len() - 1 {
        assert(marks.update(at, mark).drop_last() =~= marks.drop_last());
    } else {
        assert(marks.update(at, mark).drop_last() =~= marks.drop_last().update(at, mark));
        lemma_todo_count_update(marks.drop_last(), at, mark);
    }
}

/// What holds while the search follows `path`, with the classes in `done`
/// done with, in that order.
pub open spec fn searching(
    egraph: &EGraph,
    choices: Map<ClassId, NodeId>,
    roots: Seq<ClassId>,
    marks: Seq<Mark>,
    cycles: Seq<ClassId>,
    path: Seq<ClassId>,
    done: Seq<ClassId>,
) -> bool {
    &&& marks.len() == egraph.classes@.len()
    &&& path.len() > 0 ==> roots.contains(path[0])
    &&& is_path(egraph, choices, path)
    &&& forall|i: int| 0 <= i < path.len() ==> #[trigger] path[i] < marks.len()
    &&& forall|i: int| 0 <= i < done.len() ==> #[trigger] done[i] < marks.len()
    &&& forall|c: ClassId| c < marks.len() ==> (marks[c as int] is Doing <==> path.contains(c))
    &&& forall|c: ClassId| c < marks.len() ==> (marks[c as int] is Done <==> done.contains(c))
    &&& done.no_duplicates()
    &&& cycles.len() == 0 ==> ranked(egraph, choices, done)
    &&& forall|k: int|
        0 <= k < cycles.len() ==> closes_cycle(egraph, choices, roots, #[trigger] cycles[k])
}

proof fn lemma_enter(
    egraph: &EGraph,
    choices: Map<ClassId, NodeId>,
    roots: Seq<ClassId>,
    marks: Seq<Mark>,
    cycles: Seq<ClassId>,
    path: Seq<ClassId>,
    done: Seq<ClassId>,
    class: ClassId,
)
    requires
        searching(egraph, choices, roots, marks, cycles, path, done),
        class < marks.len(),
        marks[class as int] is Todo,
        path.len() == 0 ==> roots.contains(class),
        path.len() > 0 ==> chosen_children(egraph, choices, path.last()).contains(class),
    ensures
        searching(
            egraph,
            choices,
            roots,
            marks.update(class as int, Mark::Doing),
            cycles,
            path.push(class),
            done,
        ),
        !path.contains(class),
        !done.contains(class),
{
    let path2 = path.push(class);
    let marks2 = marks.update(class as int, Mark::Doing);
    assert forall|c: ClassId| c < marks2.len() implies (marks2[c as int] is Doing
        <==> path2.contains(c)) by {
        if path.contains(c) {
            let i = choose|i: int| 0 <= i < path.len() && path[i] == c;
            assert(path2[i] == c);
        }
        if path2.contains(c) {
            let i = choose|i: int| 0 <= i < path2.len() && path2[i] == c;
            if i < path.len() {
                assert(path[i] == c);
            }
        }
        if c == class {
            assert(path2[path.len() as int] == c);
        }
    }
    assert forall|i: int| 0 <= i < path2.len() - 1 implies chosen_children(
        egraph,
        choices,
        #[trigger] path2[i],
    ).contains(path2[i + 1]) by {
        if i < path.len() - 1 {
            assert(chosen_children(egraph, choices, path[i]).contains(path[i + 1]));
        }
    }
    if path.len() > 0 {
        assert(path2[0] == path[0]);
    }
}

proof fn lemma_leave(
    egraph: &EGraph,
    choices: Map<ClassId, NodeId>,
    roots: Seq<ClassId>,
    marks: Seq<Mark>,
    cycles: Seq<ClassId>,
    path: Seq<ClassId>,
    done: Seq<ClassId>,
    class: ClassId,
)
    requires
        searching(egraph, choices, roots, marks, cycles, path.push(class), done),
        class < marks.len(),
        !path.contains(class),
        path.len() > 0 ==> roots.contains(path[0]),
        cycles.len() == 0 ==> forall|k: int|
            0 <= k < chosen_children(egraph, choices, class).len() ==> done.contains(
                #[trigger] chosen_children(egraph, choices, class)[k],
            ),
    ensures
        searching(
            egraph,
            choices,
            roots,
            marks.update(class as int, Mark::Done),
            cycles,
            path,
            done.push(class),
        ),
{
    let path2 = path.push(class);
    let done2 = done.push(class);
    let marks2 = marks.update(class as int, Mark::Done);
    assert(path2[path.len() as int] == class);
    assert(path2.contains(class));
    assert(marks[class as int] is Doing);
    assert(!done.contains(class));
    assert forall|i: int| 0 <= i < path.len() - 1 implies chosen_children(
        egraph,
        choices,
        #[trigger] path[i],
    ).contains(path[i + 1]) by {
        assert(chosen_children(egraph, choices, path2[i]).contains(path2[i + 1]));
    }
    assert forall|i: int| 0 <= i < path.len() implies #[trigger] path[i] < marks2.len() by {
        assert(path2[i] < marks.len());
    }
    assert forall|c: ClassId| c < marks2.len() implies (marks2[c as int] is Doing
        <==> path.contains(c)) by {
        if path.contains(c) {
            let i = choose|i: int| 0 <= i < path.len() && path[i] == c;
            assert(path2[i] == c);
        }
        if path2.contains(c) && c != class {
            let i = choose|i: int| 0 <= i < path2.len() && path2[i] == c;
            assert(path[i] == c);
        }
    }
    assert forall|c: ClassId| c < marks2.len() implies (marks2[c as int] is Done
        <==> done2.contains(c)) by {
        if done.contains(c) {
            let i = choose|i: int| 0 <= i < done.len() && done[i] == c;
            assert(done2[i] == c);
        }
        if done2.contains(c) && c != class {
            let i = choose|i: int| 0 <= i < done2.len() && done2[i] == c;
            assert(done[i] == c);
        }
        if c == class {
            assert(done2[done.len() as int] == c);
        }
    }
    assert(done2.no_duplicates());
    if cycles.len() == 0 {
        assert forall|i: int, k: int|
            0 <= i < done2.len() && 0 <= k < chosen_children(
                egraph,
                choices,
                done2[i],
            ).len() implies #[trigger] settled_before(
            done2,
            chosen_children(egraph, choices, done2[i])[k],
            i,
        ) by {
            let child = chosen_children(egraph, choices, done2[i])[k];
            if i < done.len() {
                assert(settled_before(done, chosen_children(egraph, choices, done[i])[k], i));
                let j = choose|j: int| 0 <= j < i && #[trigger] done[j] == child;
                assert(done2[j] == child);
            } else {
                assert(done.contains(chosen_children(egraph, choices, class)[k]));
                let j = choose|j: int| 0 <= j < done.len() && done[j] == child;
                assert(done2[j] == child);
            }
        }
    }
}

proof fn lemma_found(
    egraph: &EGraph,
    choices: Map<ClassId, NodeId>,
    roots: Seq<ClassId>,
    marks: Seq<Mark>,
    cycles: Seq<ClassId>,
    path: Seq<ClassId>,
    done: Seq<ClassId>,
    class: ClassId,
)
    requires
        searching(egraph, choices, roots, marks, cycles, path, done),
        class < marks.len(),
        marks[class as int] is Doing,
        path.len() > 0 ==> chosen_children(egraph, choices, path.last()).contains(class),
    ensures
        searching(egraph, choices, roots, marks, cycles.push(class), path, done),
{
    let walk = path.push(class);
    assert(path.contains(class));
    let at = choose|i: int| 0 <= i < path.len() && path[i] == class;
    assert(walk[at] == walk.last());
    assert(walk[0] == path[0]);
    assert forall|i: int| 0 <= i < walk.len() - 1 implies chosen_children(
        egraph,
        choices,
        #[trigger] walk[i],
    ).contains(walk[i + 1]) by {
        if i < path.len() - 1 {
            assert(chosen_children(egraph, choices, path[i]).contains(path[i + 1]));
        }
    }
    assert(is_cycle_walk(egraph, choices, roots, walk));
    let cycles2 = cycles.push(class);
    assert forall|k: int| 0 <= k < cycles2.len() implies closes_cycle(
        egraph,
        choices,
        roots,
        #[trigger] cycles2[k],
    ) by {
        if k < cycles.len() {
            assert(closes_cycle(egraph, choices, roots, cycles[k]));
        }
    }
}

impl ExtractionResult {
    /// Follows the chosen nodes from `class` on. A class that the search
    /// meets while it is on the walk itself is added to `cycles`.
    fn cycle_dfs(
        &self,
        egraph: &EGraph,
        class: ClassId,
        marks: &mut Vec<Mark>,
        cycles: &mut Vec<ClassId>,
        Ghost(roots): Ghost<Seq<ClassId>>,
        Ghost(path): Ghost<Seq<ClassId>>,
        Ghost(done): Ghost<Seq<ClassId>>,
    ) -> (after: Ghost<Seq<ClassId>>)
        requires
            egraph.wf(),
            self.selects(egraph),
            class < egraph.classes@.len(),
            searching(egraph, self@, roots, old(marks)@, old(cycles)@, path, done),
            path.len() == 0 ==> roots.contains(class),
            path.len() > 0 ==> chosen_children(egraph, self@, path.last()).contains(class),
        ensures
            searching(egraph, self@, roots, final(marks)@, final(cycles)@, path, after@),
            todo_count(final(marks)@) <= todo_count(old(marks)@),
            final(cycles)@.len() >= old(cycles)@.len(),
            final(cycles)@.len() == 0 ==> final(marks)@[class as int] is Done,
            forall|c: int|
                0 <= c < old(marks)@.len() && !(old(marks)@[c] is Todo) ==> final(marks)@[c] == old(
                    marks,
                )@[c],
        decreases todo_count(old(marks)@),
    {
        match marks[class] {
            Mark::Done => Ghost(done),
            Mark::Doing => {
                proof {
                    lemma_found(egraph, self@, roots, marks@, cycles@, path, done, class);
                }
                cycles.push(class);
                Ghost(done)
            },
            Mark::Todo => {
                proof {
                    lemma_enter(egraph, self@, roots, marks@, cycles@, path, done, class);
                    lemma_todo_count_update(marks@, class as int, Mark::Doing);
                }
                marks.set(class, Mark::Doing);
                assert(self.selected(egraph, class));
                let node = self.chosen(class);
                assert(egraph.node_ok(node as int));
                let children = &egraph.nodes[node].children;
                let ghost walk = path.push(class);
                let mut done_now = Ghost(done);
                let mut k: usize = 0;
                while k < children.len()
                    invariant
                        k <= children@.len(),
                        egraph.wf(),
                        self.selects(egraph),
                        class < egraph.classes@.len(),
                        children@ == chosen_children(egraph, self@, class),
                        egraph.node_ok(node as int),
                        node == self@[class],
                        walk == path.push(class),
                        old(marks)@.len() == egraph.classes@.len(),
                        searching(egraph, self@, roots, marks@, cycles@, walk, done_now@),
                        todo_count(marks@) < todo_count(old(marks)@),
                        cycles@.len() >= old(cycles)@.len(),
                        marks@[class as int] is Doing,
                        forall|c: int|
                            0 <= c < old(marks)@.len() && !(old(marks)@[c] is Todo) ==> marks@[c]
                                == old(marks)@[c],
                        cycles@.len() == 0 ==> forall|h: int|
                            0 <= h < k ==> marks@[#[trigger] children@[h] as int] is Done,
                    decreases children@.len() - k,
                {
                    let child = children[k];
                    assert(children@.contains(children@[k as int]));
                    assert(walk.last() == class);
                    let ghost marks_before = marks@;
                    done_now =
                    self.cycle_dfs(
                        egraph,
                        child,
                        marks,
                        cycles,
                        Ghost(roots),
                        Ghost(walk),
                        done_now,
                    );
                    proof {
                        if cycles@.len() == 0 {
                            assert forall|h: int| 0 <= h < k + 1 implies marks@[#[trigger] children@[h] as int]
                                is Done by {
                                if h < k {
                                    assert(marks_before[children@[h] as int] is Done);
                                }
                            }
                        }
                    }
                    k += 1;
                }
                proof {
                    assert(path.len() > 0 ==> walk[0] == path[0]);
                    lemma_leave(egraph, self@, roots, marks@, cycles@, path, done_now@, class);
                    lemma_todo_count_update(marks@, class as int, Mark::Done);
                }
                marks.set(class, Mark::Done);
                Ghost(done_now@.push(class))
            },
        }
    }

    /// The classes at which a walk from a root, along the chosen nodes,
    /// comes back to itself. Empty exactly where there is no such walk.
    pub fn find_cycles(&self, egraph: &EGraph, roots: &[ClassId]) -> (cycles: Vec<ClassId>)
        requires
            egraph.wf(),
            self.selects(egraph),
            forall|i: int| 0 <= i < roots@.len() ==> #[trigger] roots@[i] < egraph.classes@.len(),
        ensures
            cycles@.len() == 0 <==> !has_cycle(egraph, self@, roots@),
            forall|k: int|
                0 <= k < cycles@.len() ==> closes_cycle(egraph, self@, roots@, #[trigger] cycles@[k]),
    {
        let n_classes = egraph.classes.len();
        let mut marks: Vec<Mark> = Vec::new();
        while marks.len() < n_classes
            invariant
                marks@.len() <= n_classes,
                forall|c: int| 0 <= c < marks@.len() ==> marks@[c] is Todo,
            decreases n_classes - marks@.len(),
        {
            marks.push(Mark::Todo);
        }
        let mut cycles: Vec<ClassId> = Vec::new();
        let mut done: Ghost<Seq<ClassId>> = Ghost(Seq::empty());
        let mut r: usize = 0;
        while r < roots.len()
            invariant
                r <= roots@.len(),
                n_classes == egraph.classes@.len(),
                egraph.wf(),
                self.selects(egraph),
                forall|i: int| 0 <= i < roots@.len() ==> #[trigger] roots@[i] < egraph.classes@.len(),
                searching(egraph, self@, roots@, marks@, cycles@, Seq::empty(), done@),
                cycles@.len() == 0 ==> forall|h: int|
                    0 <= h < r ==> marks@[#[trigger] roots@[h] as int] is Done,
            decreases roots@.len() - r,
        {
            let root = roots[r];
            assert(roots@.contains(roots@[r as int]));
            let ghost marks_before = marks@;
            done =
            self.cycle_dfs(
                egraph,
                root,
                &mut marks,
                &mut cycles,
                Ghost(roots@),
                Ghost(Seq::empty()),
                done,
            );
            proof {
                if cycles@.len() == 0 {
                    assert forall|h: int| 0 <= h < r + 1 implies marks@[#[trigger] roots@[h] as int]
                        is Done by {
                        if h < r {
                            assert(marks_before[roots@[h] as int] is Done);
                        }
                    }
                }
            }
            r += 1;
        }
        proof {
            if cycles@.len() == 0 {
                assert forall|i: int| 0 <= i < roots@.len() implies done@.contains(
                    #[trigger] roots@[i],
                ) by {
                    assert(marks@[roots@[i] as int] is Done);
                }
                lemma_ranked_no_cycle(egraph, self@, roots@, done@);
            } else {
                assert(closes_cycle(egraph, self@, roots@, cycles@[0]));
            }
        }
        cycles
    }
}

} // verus!
