use extraction_gym::cost::{cost_add, INFINITY};
use extraction_gym::egraph::{all_below, Class, EGraph, MalformedGraph, Node};
use extraction_gym::extract::{compute_class_parents, node_sum_cost, total_cost, ClassParents};
use indexmap::IndexMap;

fn node(cost: u64, eclass: usize, children: Vec<usize>) -> Node {
    Node { cost, eclass, children }
}

fn class(nodes: Vec<usize>) -> Class {
    Class { nodes }
}

/// A: {a1 leaf, 1}; B: {b1 leaf, 2; b2 over A, 1}; C: {c1 over A and B, 0}; root C.
fn small_graph() -> EGraph {
    EGraph {
        nodes: vec![
            node(1, 0, vec![]),
            node(2, 1, vec![]),
            node(1, 1, vec![0]),
            node(0, 2, vec![0, 1]),
        ],
        classes: vec![class(vec![0]), class(vec![1, 2]), class(vec![3])],
        root_eclasses: vec![2],
    }
}

#[test]
fn cost_add_is_exact_below_infinity() {
    assert_eq!(cost_add(0, 0), 0);
    assert_eq!(cost_add(3, 4), 7);
    assert_eq!(cost_add(INFINITY - 2, 1), INFINITY - 1);
}

#[test]
fn cost_add_saturates_at_infinity() {
    assert_eq!(cost_add(INFINITY - 1, 1), INFINITY);
    assert_eq!(cost_add(INFINITY, 0), INFINITY);
    assert_eq!(cost_add(INFINITY, 5), INFINITY);
    assert_eq!(cost_add(INFINITY, INFINITY), INFINITY);
    assert_eq!(cost_add(1 << 63, 1 << 63), INFINITY);
}

#[test]
fn infinity_is_above_every_finite_cost() {
    assert_eq!(INFINITY, u64::MAX);
    assert!(INFINITY > 1_000_000_000_000);
}

#[test]
fn leaf_is_a_node_without_children() {
    assert!(node(1, 0, vec![]).is_leaf());
    assert!(!node(1, 0, vec![0]).is_leaf());
}

#[test]
fn well_formed_graph_is_accepted() {
    assert_eq!(small_graph().validate(), Ok(()));
}

#[test]
fn empty_graph_is_accepted() {
    let g = EGraph { nodes: vec![], classes: vec![], root_eclasses: vec![] };
    assert_eq!(g.validate(), Ok(()));
}

#[test]
fn child_that_names_no_class_is_rejected() {
    let mut g = small_graph();
    g.nodes[3].children = vec![0, 3];
    assert_eq!(g.validate(), Err(MalformedGraph));
}

#[test]
fn node_of_a_missing_class_is_rejected() {
    let mut g = small_graph();
    g.nodes[0].eclass = 7;
    assert_eq!(g.validate(), Err(MalformedGraph));
}

#[test]
fn empty_class_is_rejected() {
    let mut g = small_graph();
    g.classes.push(class(vec![]));
    assert_eq!(g.validate(), Err(MalformedGraph));
}

#[test]
fn class_that_lists_a_missing_node_is_rejected() {
    let mut g = small_graph();
    g.classes[0].nodes.push(9);
    assert_eq!(g.validate(), Err(MalformedGraph));
}

#[test]
fn class_that_lists_a_foreign_node_is_rejected() {
    let mut g = small_graph();
    g.classes[0].nodes.push(1);
    assert_eq!(g.validate(), Err(MalformedGraph));
}

#[test]
fn node_that_its_class_does_not_list_is_rejected() {
    let mut g = small_graph();
    g.classes[1].nodes = vec![1];
    assert_eq!(g.validate(), Err(MalformedGraph));
}

#[test]
fn root_that_names_no_class_is_rejected() {
    let mut g = small_graph();
    g.root_eclasses = vec![2, 3];
    assert_eq!(g.validate(), Err(MalformedGraph));
}

#[test]
fn nid_to_cid_gives_the_class_of_a_node() {
    let g = small_graph();
    assert_eq!(g.nid_to_cid(0), 0);
    assert_eq!(g.nid_to_cid(2), 1);
    assert_eq!(g.nid_to_cid(3), 2);
}

#[test]
fn all_below_checks_every_entry() {
    assert!(all_below(&[], 0));
    assert!(all_below(&[0, 1, 2], 3));
    assert!(!all_below(&[0, 3, 1], 3));
}

#[test]
fn class_parents_list_the_users_of_each_class() {
    let g = small_graph();
    let parents = compute_class_parents(&g);
    assert_eq!(parents.table, vec![vec![2, 3], vec![3], vec![]]);
}

#[test]
fn class_parents_list_a_node_once_per_class() {
    let g = EGraph {
        nodes: vec![node(1, 0, vec![]), node(1, 1, vec![0, 0, 1, 0])],
        classes: vec![class(vec![0]), class(vec![1])],
        root_eclasses: vec![1],
    };
    assert_eq!(g.validate(), Ok(()));
    let parents = compute_class_parents(&g);
    assert_eq!(parents.table, vec![vec![1], vec![1]]);
}

#[test]
fn node_sum_cost_adds_the_costs_of_the_children() {
    let mut costs: IndexMap<usize, u64> = IndexMap::new();
    costs.insert(0, 1);
    costs.insert(1, 2);
    assert_eq!(node_sum_cost(&node(0, 2, vec![0, 1]), &costs), 3);
    assert_eq!(node_sum_cost(&node(10, 2, vec![1]), &costs), 12);
    assert_eq!(node_sum_cost(&node(7, 2, vec![]), &costs), 7);
}

#[test]
fn node_sum_cost_counts_a_child_as_often_as_it_is_listed() {
    let mut costs: IndexMap<usize, u64> = IndexMap::new();
    costs.insert(0, 5);
    assert_eq!(node_sum_cost(&node(1, 1, vec![0, 0, 0]), &costs), 16);
}

#[test]
fn node_sum_cost_is_infinite_where_a_child_is_not_settled() {
    let mut costs: IndexMap<usize, u64> = IndexMap::new();
    costs.insert(0, 5);
    assert_eq!(node_sum_cost(&node(1, 2, vec![0, 1]), &costs), INFINITY);
    assert_eq!(node_sum_cost(&node(1, 2, vec![1]), &IndexMap::new()), INFINITY);
}

#[test]
fn node_sum_cost_is_infinite_where_a_child_is() {
    let mut costs: IndexMap<usize, u64> = IndexMap::new();
    costs.insert(0, INFINITY);
    costs.insert(1, 3);
    assert_eq!(node_sum_cost(&node(0, 2, vec![1, 0]), &costs), INFINITY);
}

#[test]
fn node_sum_cost_saturates() {
    let mut costs: IndexMap<usize, u64> = IndexMap::new();
    costs.insert(0, 1 << 63);
    assert_eq!(node_sum_cost(&node(0, 1, vec![0, 0]), &costs), INFINITY);
    assert_eq!(node_sum_cost(&node(INFINITY, 1, vec![]), &costs), INFINITY);
}

#[test]
fn total_cost_sums_the_listed_classes() {
    let mut costs: IndexMap<usize, u64> = IndexMap::new();
    costs.insert(0, 4);
    costs.insert(1, 6);
    assert_eq!(total_cost(&[], &costs), 0);
    assert_eq!(total_cost(&[0, 1, 0], &costs), 14);
    assert_eq!(total_cost(&[0, 2], &costs), INFINITY);
}

#[test]
fn class_parents_rows_are_in_rising_order() {
    let g = EGraph {
        nodes: vec![
            node(1, 0, vec![]),
            node(1, 1, vec![0]),
            node(1, 1, vec![0, 0]),
            node(1, 2, vec![1, 0]),
            node(1, 2, vec![]),
        ],
        classes: vec![class(vec![0]), class(vec![1, 2]), class(vec![3, 4])],
        root_eclasses: vec![2],
    };
    assert_eq!(g.validate(), Ok(()));
    let parents = compute_class_parents(&g);
    assert_eq!(parents.table, vec![vec![1, 2, 3], vec![3], vec![]]);
}

#[test]
fn is_index_of_accepts_the_reverse_index() {
    let g = small_graph();
    assert!(compute_class_parents(&g).is_index_of(&g));
    assert!(ClassParents { table: vec![vec![2, 3], vec![3], vec![]] }.is_index_of(&g));
}

#[test]
fn is_index_of_rejects_any_other_table() {
    let g = small_graph();
    assert!(!ClassParents { table: vec![] }.is_index_of(&g));
    assert!(!ClassParents { table: vec![vec![2, 3], vec![3]] }.is_index_of(&g));
    assert!(!ClassParents { table: vec![vec![3, 2], vec![3], vec![]] }.is_index_of(&g));
    assert!(!ClassParents { table: vec![vec![2, 3, 3], vec![3], vec![]] }.is_index_of(&g));
    assert!(!ClassParents { table: vec![vec![2], vec![3], vec![]] }.is_index_of(&g));
    assert!(!ClassParents { table: vec![vec![2, 3], vec![3], vec![0]] }.is_index_of(&g));
    assert!(!ClassParents { table: vec![vec![2, 3], vec![1, 3], vec![]] }.is_index_of(&g));
}
