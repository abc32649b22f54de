//! Extraction in the manner of Dijkstra: classes are settled in order of
//! cost. A node is offered as a candidate for its class only once all of its
//! children's classes are settled, which a count per node keeps track of.

use vstd::prelude::*;
use indexmap::IndexMap;
use crate::cost::{Cost, INFINITY};
use crate::egraph::{ClassId, EGraph, MalformedGraph, NodeId};
use crate::extract::frontier::{Candidate, Frontier};
use crate::extract::run::{
    best_hiding, best_in_class, lemma_count_bounded, lemma_relax, lemma_settle, relaxing,
    seen_total, unsettled_count, Run,
};
use crate::extract::{
    compute_class_parents, lemma_total_of_unsettled, node_sum_cost, node_total, ClassParents,
    ExtractionResult,
};
use crate::index_map::{cost_entries, get_cost, insert_cost, new_cost_map};

verus! {

/// A leaf costs what it costs by itself; any other node is infinite while
/// nothing is settled.
proof fn lemma_total_at_start(egraph: &EGraph, n: int)
    requires
        0 <= n < egraph.nodes@.len(),
    ensures
        node_total(egraph.nodes@[n], Map::empty()) == (if egraph.nodes@[n].children@.len() == 0 {
            egraph.nodes@[n].cost
        } else {
            INFINITY
        }),
{
    let children = egraph.nodes@[n].children@;
    if children.len() > 0 {
        assert(children.contains(children[0]));
        lemma_total_of_unsettled(children, Map::empty(), children[0]);
    }
}

/// The seed of a class: its cheapest leaf, or, where it has no leaf, its
/// first node at infinite cost.
fn cheapest_leaf(egraph: &EGraph, class: ClassId) -> (seed: Candidate)
    requires
        egraph.wf(),
        class < egraph.classes@.len(),
    ensures
        best_in_class(egraph, Map::empty(), class as int, seed),
{
    assert(egraph.class_ok(class as int));
    let members = &egraph.classes[class].nodes;
    let mut seed = Candidate { cost: INFINITY, node: members[0] };
    let mut found = false;
    let mut i: usize = 0;
    while i < members.len()
        invariant
            i <= members@.len(),
            members@ == egraph.classes@[class as int].nodes@,
            egraph.class_ok(class as int),
            egraph.member(seed.node as int, class as int),
            found ==> {
                &&& egraph.nodes@[seed.node as int].children@.len() == 0
                &&& seed.cost == egraph.nodes@[seed.node as int].cost
                &&& forall|k: int|
                    0 <= k < i && egraph.nodes@[#[trigger] members@[k] as int].children@.len() == 0
                        ==> seed.cost <= egraph.nodes@[members@[k] as int].cost
            },
            !found ==> {
                &&& seed.cost == INFINITY
                &&& seed.node == members@[0]
                &&& forall|k: int|
                    0 <= k < i ==> egraph.nodes@[#[trigger] members@[k] as int].children@.len() > 0
            },
        decreases members@.len() - i,
    {
        let n = members[i];
        let node = &egraph.nodes[n];
        if node.is_leaf() && (!found || node.cost < seed.cost) {
            seed = Candidate { cost: node.cost, node: n };
            found = true;
        }
        i += 1;
    }
    proof {
        lemma_total_at_start(egraph, seed.node as int);
        let none = Seq::<NodeId>::empty();
        assert forall|n: int| #[trigger] egraph.member(n, class as int) implies {
            &&& seed.cost <= seen_total(egraph, Map::empty(), none, n)
            &&& !found ==> egraph.nodes@[n].children@.len() > 0
        } by {
            lemma_total_at_start(egraph, n);
            assert(egraph.node_ok(n));
            let k = choose|k: int|
                0 <= k < members@.len() && #[trigger] egraph.classes@[class as int].nodes@[k] == n;
            assert(members@[k] == n);
        }
    }
    seed
}

/// A frontier that holds the seed of every class.
fn seed_frontier(egraph: &EGraph) -> (frontier: Frontier)
    requires
        egraph.wf(),
    ensures
        frontier.wf(),
        frontier.classes() == egraph.classes@.len(),
        forall|c: ClassId| frontier@.contains_key(c) <==> c < egraph.classes@.len(),
        forall|c: ClassId|
            c < egraph.classes@.len() ==> best_in_class(
                egraph,
                Map::empty(),
                c as int,
                #[trigger] frontier@[c],
            ),
{
    let n_classes = egraph.classes.len();
    let mut frontier = Frontier::new(n_classes);
    let mut c: usize = 0;
    while c < n_classes
        invariant
            c <= n_classes,
            n_classes == egraph.classes@.len(),
            egraph.wf(),
            frontier.wf(),
            frontier.classes() == n_classes,
            forall|d: ClassId| frontier@.contains_key(d) <==> d < c,
            forall|d: ClassId|
                d < c ==> best_in_class(egraph, Map::empty(), d as int, #[trigger] frontier@[d]),
        decreases n_classes - c,
    {
        let seed = cheapest_leaf(egraph, c);
        frontier.offer(c, seed.cost, seed.node);
        c += 1;
    }
    frontier
}

/// For each node, the number of classes that list it in the reverse index:
/// the number of distinct classes among its children.
fn count_pending(egraph: &EGraph, class_parents: &ClassParents) -> (pending: Vec<usize>)
    requires
        egraph.wf(),
        class_parents.indexes(egraph),
    ensures
        pending@.len() == egraph.nodes@.len(),
        forall|n: int|
            0 <= n < egraph.nodes@.len() ==> #[trigger] pending@[n] == unsettled_count(
                egraph.nodes@[n].children@,
                Map::empty(),
                egraph.classes@.len(),
            ),
{
    let n_nodes = egraph.nodes.len();
    let n_classes = egraph.classes.len();
    let mut pending: Vec<usize> = Vec::new();
    while pending.len() < n_nodes
        invariant
            pending@.len() <= n_nodes,
            forall|n: int| 0 <= n < pending@.len() ==> pending@[n] == 0,
        decreases n_nodes - pending@.len(),
    {
        pending.push(0);
    }
    let mut c: usize = 0;
    while c < n_classes
        invariant
            c <= n_classes,
            n_classes == egraph.classes@.len(),
            n_nodes == egraph.nodes@.len(),
            class_parents.indexes(egraph),
            pending@.len() == n_nodes,
            forall|n: int|
                0 <= n < n_nodes ==> #[trigger] pending@[n] == unsettled_count(
                    egraph.nodes@[n].children@,
                    Map::empty(),
                    c as nat,
                ),
        decreases n_classes - c,
    {
        let row = &class_parents.table[c];
        let mut j: usize = 0;
        while j < row.len()
            invariant
                j <= row@.len(),
                c < n_classes,
                n_classes == egraph.classes@.len(),
                n_nodes == egraph.nodes@.len(),
                class_parents.indexes(egraph),
                row@ == class_parents.row(c as int),
                pending@.len() == n_nodes,
                forall|n: int|
                    0 <= n < n_nodes ==> #[trigger] pending@[n] == unsettled_count(
                        egraph.nodes@[n].children@,
                        Map::empty(),
                        c as nat,
                    ) + if row@.take(j as int).contains(n as usize) {
                        1nat
                    } else {
                        0nat
                    },
            decreases row@.len() - j,
        {
            let p = row[j];
            proof {
                assert(class_parents.row(c as int)[j as int] < n_nodes);
                lemma_count_bounded(egraph.nodes@[p as int].children@, Map::empty(), c as nat);
                if row@.take(j as int).contains(p) {
                    let i = choose|i: int| 0 <= i < j && row@.take(j as int)[i] == p;
                    assert(class_parents.row(c as int)[i] != class_parents.row(c as int)[j as int]);
                }
            }
            let count = pending[p];
            pending.set(p, count + 1);
            proof {
                let before = row@.take(j as int);
                let after = row@.take(j as int + 1);
                assert(after.drop_last() =~= before);
                assert(after.last() == p);
                assert forall|x: NodeId| #[trigger]
                    after.contains(x) <==> (before.contains(x) || x == p) by {
                    if before.contains(x) {
                        let i = choose|i: int| 0 <= i < before.len() && before[i] == x;
                        assert(after[i] == x);
                    }
                    if x == p {
                        assert(after[j as int] == p);
                    }
                    if after.contains(x) {
                        let i = choose|i: int| 0 <= i < after.len() && after[i] == x;
                        if i < j {
                            assert(before[i] == x);
                        }
                    }
                }
            }
            j += 1;
        }
        proof {
            assert(row@.take(j as int) =~= row@);
            assert forall|n: int| 0 <= n < n_nodes implies #[trigger] pending@[n] == unsettled_count(
                egraph.nodes@[n].children@,
                Map::empty(),
                (c + 1) as nat,
            ) by {
                let children = egraph.nodes@[n].children@;
                if row@.contains(n as usize) {
                    let i = choose|i: int| 0 <= i < row@.len() && row@[i] == n as usize;
                    assert(egraph.nodes@[class_parents.row(c as int)[i] as int].children@.contains(c));
                }
                if children.contains(c) {
                    let k = choose|k: int| 0 <= k < children.len() && children[k] == c;
                    assert(class_parents.row(egraph.nodes@[n].children@[k] as int).contains(
                        n as usize,
                    ));
                }
            }
        }
        c += 1;
    }
    pending
}

/// One extraction under way: what is settled, the counts, and the frontier.
pub struct Engine {
    /// The cost of each settled class.
    pub costs: IndexMap<ClassId, Cost>,
    /// The node chosen for each settled class.
    pub result: ExtractionResult,
    /// For each node, how many of its children's classes are not settled.
    pub pending: Vec<usize>,
    /// The best candidate of each class that is not settled.
    pub frontier: Frontier,
    /// The settled classes, in the order in which they were settled.
    pub order: Ghost<Seq<ClassId>>,
}

impl View for Engine {
    type V = Run;

    open spec fn view(&self) -> Run {
        Run {
            costs: cost_entries(self.costs),
            choices: self.result@,
            pending: self.pending@,
            frontier: self.frontier@,
            order: self.order@,
        }
    }
}

impl Engine {
    /// The frontier is in order and has room for the classes of `egraph`.
    pub open spec fn fits(&self, egraph: &EGraph) -> bool {
        &&& self.frontier.wf()
        &&& self.frontier.classes() == egraph.classes@.len()
    }

    /// The engine is at rest between two steps of an extraction from
    /// `egraph`.
    pub open spec fn inv(&self, egraph: &EGraph) -> bool {
        &&& self.fits(egraph)
        &&& self@.inv(egraph)
    }

    /// The engine at the start: nothing is settled, every class has its
    /// seed in the frontier, and every node counts the distinct classes
    /// among its children.
    pub fn new(egraph: &EGraph, class_parents: &ClassParents) -> (engine: Engine)
        requires
            egraph.wf(),
            class_parents.indexes(egraph),
        ensures
            engine.inv(egraph),
            engine@.costs == Map::<ClassId, Cost>::empty(),
            engine@.choices == Map::<ClassId, NodeId>::empty(),
            engine@.order == Seq::<ClassId>::empty(),
    {
        let frontier = seed_frontier(egraph);
        let pending = count_pending(egraph, class_parents);
        let engine = Engine {
            costs: new_cost_map(),
            result: ExtractionResult::new(),
            pending,
            frontier,
            order: Ghost(Seq::empty()),
        };
        proof {
            assert(engine@.costs =~= Map::<ClassId, Cost>::empty());
            assert(engine@.order =~= Seq::<ClassId>::empty());
            assert forall|c: ClassId| c < egraph.classes@.len() implies best_hiding(
                egraph,
                engine@.costs,
                c as int,
                #[trigger] engine@.entry(c),
                Seq::empty(),
            ) by {
                assert(best_in_class(egraph, Map::empty(), c as int, engine.frontier@[c]));
            }
        }
        engine
    }

    /// Tells node `j` of the row of `class` that `class` was settled.
    fn relax(&mut self, egraph: &EGraph, class_parents: &ClassParents, class: ClassId, j: usize)
        requires
            egraph.wf(),
            class_parents.indexes(egraph),
            old(self).fits(egraph),
            relaxing(old(self)@, egraph, class_parents, class, j as int),
            j < class_parents.row(class as int).len(),
        ensures
            final(self).fits(egraph),
            final(self)@ == old(self)@.relax(egraph, class_parents.row(class as int)[j as int]),
            relaxing(final(self)@, egraph, class_parents, class, j + 1),
    {
        let p = class_parents.table[class][j];
        proof {
            lemma_relax(egraph, class_parents, self@, class, j as int);
            class_parents.lemma_next_in_row(egraph, class, j as int);
            assert(class_parents.row(class as int).skip(j as int).contains(p));
            assert(class_parents.row(class as int)[j as int] < egraph.nodes@.len());
            assert(egraph.node_ok(p as int));
        }
        let owner = egraph.nodes[p].eclass;
        match get_cost(&self.costs, owner) {
            Some(_) => {},
            None => {
                assert(self.pending@[p as int] >= 1);
                let count = self.pending[p] - 1;
                self.pending.set(p, count);
                if count == 0 {
                    let total = node_sum_cost(&egraph.nodes[p], &self.costs);
                    self.frontier.offer(owner, total, p);
                }
            },
        }
        assert(self@ =~= old(self)@.relax(egraph, class_parents.row(class as int)[j as int]));
    }

    /// One step: settles the class whose candidate is cheapest, and tells
    /// the nodes that use it. Hands back the class, or `None` where every
    /// class was settled already.
    pub fn settle_next(&mut self, egraph: &EGraph, class_parents: &ClassParents) -> (settled: Option<
        ClassId,
    >)
        requires
            egraph.wf(),
            class_parents.indexes(egraph),
            old(self).inv(egraph),
        ensures
            final(self).inv(egraph),
            forall|c: ClassId| #[trigger]
                old(self)@.costs.contains_key(c) ==> {
                    &&& final(self)@.costs.contains_key(c)
                    &&& final(self)@.costs[c] == old(self)@.costs[c]
                    &&& final(self)@.choices[c] == old(self)@.choices[c]
                },
            match settled {
                None => {
                    &&& old(self)@.complete(egraph)
                    &&& final(self)@ == old(self)@
                },
                Some(class) => {
                    &&& old(self)@.frontier.contains_key(class)
                    &&& forall|other: ClassId| #[trigger]
                        old(self)@.frontier.contains_key(other) ==> old(self)@.frontier[class].cost
                            <= old(self)@.frontier[other].cost
                    &&& final(self)@ == old(self)@.settle(
                        class,
                        old(self)@.frontier[class],
                    ).relax_all(egraph, class_parents.row(class as int))
                    &&& final(self)@.costs == old(self)@.costs.insert(
                        class,
                        old(self)@.frontier[class].cost,
                    )
                    &&& final(self)@.choices == old(self)@.choices.insert(
                        class,
                        old(self)@.frontier[class].node,
                    )
                    &&& final(self)@.order == old(self)@.order.push(class)
                    &&& final(self)@.frontier.dom() == old(self)@.frontier.dom().remove(class)
                },
            },
    {
        match self.frontier.pop_min() {
            None => {
                proof {
                    self.frontier.lemma_bounded();
                    old(self).frontier.lemma_bounded();
                    old(self)@.frontier.dom().lemma_len0_is_empty();
                    assert(self@ =~= old(self)@);
                }
                None
            },
            Some((class, held)) => {
                insert_cost(&mut self.costs, class, held.cost);
                self.result.commit(class, held.node);
                self.order = Ghost(self.order@.push(class));
                let ghost start = old(self)@.settle(class, held);
                proof {
                    lemma_settle(egraph, class_parents, old(self)@, class, held);
                    assert(self@ =~= start);
                }
                let row_len = class_parents.table[class].len();
                let mut j: usize = 0;
                while j < row_len
                    invariant
                        j <= row_len,
                        row_len == class_parents.row(class as int).len(),
                        egraph.wf(),
                        class_parents.indexes(egraph),
                        self.fits(egraph),
                        relaxing(self@, egraph, class_parents, class, j as int),
                        self@ == start.relax_all(
                            egraph,
                            class_parents.row(class as int).take(j as int),
                        ),
                        self@.costs == start.costs,
                        self@.choices == start.choices,
                        self@.order == start.order,
                    decreases row_len - j,
                {
                    proof {
                        let row = class_parents.row(class as int);
                        assert(row.take(j + 1).drop_last() =~= row.take(j as int));
                        assert(row.take(j + 1).last() == row[j as int]);
                    }
                    self.relax(egraph, class_parents, class, j);
                    j += 1;
                }
                proof {
                    let row = class_parents.row(class as int);
                    assert(row.take(j as int) =~= row);
                    assert(row.skip(j as int) =~= Seq::<NodeId>::empty());
                    assert(self@.frontier.dom() =~= old(self)@.frontier.dom().remove(class));
                }
                Some(class)
            },
        }
    }

    /// Whether every class is settled.
    pub fn is_finished(&self) -> (finished: bool)
        requires
            self.frontier.wf(),
        ensures
            finished == (self@.frontier.dom().len() == 0),
    {
        self.frontier.is_empty()
    }

    /// The cost at which `class` was settled, if it was.
    pub fn cost(&self, class: ClassId) -> (settled: Option<Cost>)
        ensures
            settled == (if self@.costs.contains_key(class) {
                Some(self@.costs[class])
            } else {
                None
            }),
    {
        get_cost(&self.costs, class)
    }

    /// Runs an extraction to its end.
    pub fn run(egraph: &EGraph, class_parents: &ClassParents) -> (engine: Engine)
        requires
            egraph.wf(),
            class_parents.indexes(egraph),
        ensures
            engine.inv(egraph),
            engine@.complete(egraph),
            engine.result.selects(egraph),
    {
        let mut engine = Engine::new(egraph, class_parents);
        let mut more = true;
        while more
            invariant
                egraph.wf(),
                class_parents.indexes(egraph),
                engine.inv(egraph),
                !more ==> engine@.complete(egraph),
            decreases engine@.frontier.dom().len(), if more { 1int } else { 0int },
        {
            let ghost before = engine@;
            proof {
                engine.frontier.lemma_bounded();
            }
            match engine.settle_next(egraph, class_parents) {
                Some(class) => {
                    proof {
                        assert(engine@.frontier.dom() =~= before.frontier.dom().remove(class));
                    }
                },
                None => {
                    more = false;
                },
            }
        }
        proof {
            assert forall|c: ClassId| c < egraph.classes@.len() implies #[trigger] engine.result.selected(
                egraph,
                c,
            ) by {
                assert(best_hiding(egraph, engine@.costs, c as int, engine@.entry(c), Seq::empty()));
            }
        }
        engine
    }
}

/// Extraction that settles the classes in order of cost.
pub struct DijkstraExtractor;

impl DijkstraExtractor {
    /// Chooses a node for every class of `egraph`, at the least cost that
    /// the class can be had for. `roots` does not restrict the work: classes
    /// that no root reaches are settled like the others.
    pub fn extract(
        &self,
        egraph: &EGraph,
        roots: &[ClassId],
        class_parents: &ClassParents,
    ) -> (result: ExtractionResult)
        requires
            egraph.wf(),
            class_parents.indexes(egraph),
        ensures
            result.selects(egraph),
            exists|run: Run| #[trigger] run.yields(egraph, result@),
    {
        let engine = Engine::run(egraph, class_parents);
        assert(engine@.yields(egraph, engine.result@));
        engine.result
    }
}

/// Checks the graph, builds its reverse index and runs the extraction.
pub fn settle_all(egraph: &EGraph) -> (settled: Result<Engine, MalformedGraph>)
    ensures
        settled is Err <==> !egraph.wf(),
        settled matches Ok(engine) ==> engine.inv(egraph) && engine@.complete(egraph)
            && engine.result.selects(egraph),
{
    match egraph.validate() {
        Err(malformed) => Err(malformed),
        Ok(_) => {
            let class_parents = compute_class_parents(egraph);
            Ok(Engine::run(egraph, &class_parents))
        },
    }
}

} // verus!
