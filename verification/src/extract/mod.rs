//! Extraction: choosing a node for every class of an e-graph. Here is what
//! every way of extracting shares, the record of the nodes chosen; the
//! modules hold the reverse index, the cost of a node, one extractor, and
//! the queries on what was chosen.

pub mod cycles;
pub mod dijkstra;
pub mod frontier;
pub mod node_cost;
pub mod parents;
pub mod run;
pub mod theorems;
pub mod totals;

pub use crate::extract::node_cost::{
    children_total, cost_of, lemma_total_after_settling, lemma_total_covers_child,
    lemma_total_monotone, lemma_total_nonnegative, lemma_total_of_unsettled, lemma_total_same,
    lemma_total_without, node_sum_cost, node_total, total_cost,
};
pub use crate::extract::parents::{compute_class_parents, ClassParents};

use vstd::pervasive::unreached;
use vstd::prelude::*;
use indexmap::IndexMap;
use crate::egraph::{ClassId, EGraph, NodeId};
use crate::index_map::{choice_entries, get_choice, insert_choice, new_choice_map};

verus! {

/// Whether `class` stands in `order` before position `i`.
pub open spec fn settled_before(order: Seq<ClassId>, class: ClassId, i: int) -> bool {
    exists|j: int| 0 <= j < i && #[trigger] order[j] == class
}

/// The children of the node chosen for `class`.
pub open spec fn chosen_children(
    egraph: &EGraph,
    choices: Map<ClassId, NodeId>,
    class: ClassId,
) -> Seq<ClassId> {
    egraph.nodes@[choices[class] as int].children@
}

/// The node chosen for each class that has one.
pub struct ExtractionResult {
    pub choices: IndexMap<ClassId, NodeId>,
}

impl View for ExtractionResult {
    type V = Map<ClassId, NodeId>;

    open spec fn view(&self) -> Map<ClassId, NodeId> {
        choice_entries(self.choices)
    }
}

impl ExtractionResult {
    /// `class` has a choice, and it is a node of that class.
    pub open spec fn selected(&self, egraph: &EGraph, class: ClassId) -> bool {
        &&& self@.contains_key(class)
        &&& egraph.member(self@[class] as int, class as int)
    }

    /// Every class of `egraph` has a choice that is one of its nodes.
    pub open spec fn selects(&self, egraph: &EGraph) -> bool {
        forall|c: ClassId| c < egraph.classes@.len() ==> #[trigger] self.selected(egraph, c)
    }

    /// A record without choices.
    pub fn new() -> (result: Self)
        ensures
            result@ == Map::<ClassId, NodeId>::empty(),
    {
        let result = ExtractionResult { choices: new_choice_map() };
        assert(result@ =~= Map::<ClassId, NodeId>::empty());
        result
    }

    /// Records `node_id` as the node of `class_id`. A later choice for the
    /// same class replaces the earlier one.
    pub fn commit(&mut self, class_id: ClassId, node_id: NodeId)
        ensures
            final(self)@ == old(self)@.insert(class_id, node_id),
    {
        insert_choice(&mut self.choices, class_id, node_id);
    }

    /// Whether every class of `egraph` has a choice that is one of its nodes.
    pub fn is_selection(&self, egraph: &EGraph) -> (whole: bool)
        ensures
            whole == self.selects(egraph),
    {
        let n_classes = egraph.classes.len();
        let mut c: usize = 0;
        while c < n_classes
            invariant
                c <= n_classes,
                n_classes == egraph.classes@.len(),
                forall|d: ClassId| d < c ==> #[trigger] self.selected(egraph, d),
            decreases n_classes - c,
        {
            match get_choice(&self.choices, c) {
                Some(node) => {
                    if node >= egraph.nodes.len() || egraph.nodes[node].eclass != c {
                        assert(!self.selected(egraph, c));
                        return false;
                    }
                },
                None => {
                    assert(!self.selected(egraph, c));
                    return false;
                },
            }
            assert(self.selected(egraph, c));
            c += 1;
        }
        true
    }

    /// The node chosen for `class_id`, which has one.
    pub fn chosen(&self, class_id: ClassId) -> (node: NodeId)
        requires
            self@.contains_key(class_id),
        ensures
            node == self@[class_id],
    {
        match get_choice(&self.choices, class_id) {
            Some(node) => node,
            None => unreached(),
        }
    }

    /// The node chosen for `class_id`, if one was.
    pub fn choice(&self, class_id: ClassId) -> (node: Option<NodeId>)
        ensures
            node == (if self@.contains_key(class_id) {
                Some(self@[class_id])
            } else {
                None
            }),
    {
        get_choice(&self.choices, class_id)
    }
}

} // verus!
