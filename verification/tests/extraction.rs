use extraction_gym::cost::INFINITY;
use extraction_gym::egraph::{Class, EGraph, MalformedGraph, Node};
use extraction_gym::extract::compute_class_parents;
use extraction_gym::extract::dijkstra::{settle_all, DijkstraExtractor, Engine};
use extraction_gym::extract::frontier::Candidate;
use extraction_gym::extract::ExtractionResult;

fn node(cost: u64, eclass: usize, children: Vec<usize>) -> Node {
    Node { cost, eclass, children }
}

fn class(nodes: Vec<usize>) -> Class {
    Class { nodes }
}

/// A: {a1 leaf, 1}; B: {b1 leaf, 2; b2 over A, 1}; C: {c1 over A and B, 0}; root C.
fn small_graph() -> EGraph {
    EGraph {
        nodes: vec![
            node(1, 0, vec![]),
            node(2, 1, vec![]),
            node(1, 1, vec![0]),
            node(0, 2, vec![0, 1]),
        ],
        classes: vec![class(vec![0]), class(vec![1, 2]), class(vec![3])],
        root_eclasses: vec![2],
    }
}

/// A chain 0 <- 1 <- ... of single-node classes; node `i` costs `i + 1`.
fn chain(len: usize) -> EGraph {
    let mut nodes = Vec::new();
    let mut classes = Vec::new();
    for i in 0..len {
        let children = if i == 0 { vec![] } else { vec![i - 1] };
        nodes.push(node(i as u64 + 1, i, children));
        classes.push(class(vec![i]));
    }
    EGraph { nodes, classes, root_eclasses: vec![len - 1] }
}

fn run(g: &EGraph) -> Engine {
    assert_eq!(g.validate(), Ok(()));
    let parents = compute_class_parents(g);
    Engine::run(g, &parents)
}

#[test]
fn small_graph_settles_as_expected() {
    let g = small_graph();
    let engine = run(&g);
    assert_eq!(engine.cost(0), Some(1));
    assert_eq!(engine.result.choice(0), Some(0));
    assert_eq!(engine.cost(1), Some(2));
    let b = engine.result.choice(1).unwrap();
    assert!(b == 1 || b == 2);
    assert_eq!(engine.cost(2), Some(3));
    assert_eq!(engine.result.choice(2), Some(3));
    assert!(engine.is_finished());
    assert!(engine.result.is_selection(&g));
    assert!(engine.result.find_cycles(&g, &g.root_eclasses).is_empty());
    assert_eq!(engine.result.dag_cost(&g, &g.root_eclasses), 3);
    assert_eq!(engine.result.tree_cost(&g, &g.root_eclasses), 3);
}

#[test]
fn extract_chooses_a_node_for_every_class() {
    let g = small_graph();
    assert_eq!(g.validate(), Ok(()));
    let parents = compute_class_parents(&g);
    let result = DijkstraExtractor.extract(&g, &g.root_eclasses, &parents);
    assert_eq!(result.choices.len(), 3);
    assert!(result.is_selection(&g));
    assert_eq!(result.choice(0), Some(0));
    assert_eq!(result.choice(2), Some(3));
    assert_eq!(result.choice(3), None);
    assert!(result.find_cycles(&g, &g.root_eclasses).is_empty());
}

#[test]
fn extract_does_not_stop_at_what_the_roots_reach() {
    let mut g = small_graph();
    g.root_eclasses = vec![0];
    assert_eq!(g.validate(), Ok(()));
    let parents = compute_class_parents(&g);
    let result = DijkstraExtractor.extract(&g, &[0], &parents);
    assert_eq!(result.choices.len(), 3);
    assert_eq!(result.choice(2), Some(3));
    assert_eq!(result.dag_cost(&g, &[0]), 1);
}

#[test]
fn engine_starts_with_seeds_and_counts() {
    let g = small_graph();
    assert_eq!(g.validate(), Ok(()));
    let parents = compute_class_parents(&g);
    let engine = Engine::new(&g, &parents);
    assert_eq!(engine.pending, vec![0, 0, 1, 2]);
    assert_eq!(engine.frontier.len(), 3);
    assert_eq!(engine.frontier.get(0), Some(Candidate { cost: 1, node: 0 }));
    assert_eq!(engine.frontier.get(1), Some(Candidate { cost: 2, node: 1 }));
    assert_eq!(engine.frontier.get(2), Some(Candidate { cost: INFINITY, node: 3 }));
    assert_eq!(engine.cost(0), None);
    assert_eq!(engine.result.choice(0), None);
    assert!(!engine.is_finished());
}

#[test]
fn settled_costs_never_change() {
    let g = small_graph();
    assert_eq!(g.validate(), Ok(()));
    let parents = compute_class_parents(&g);
    let mut engine = Engine::new(&g, &parents);
    let mut settled: Vec<(usize, u64, usize)> = Vec::new();
    while let Some(c) = engine.settle_next(&g, &parents) {
        for (class, cost, chosen) in settled.iter() {
            assert_ne!(*class, c);
            assert_eq!(engine.cost(*class), Some(*cost));
            assert_eq!(engine.result.choice(*class), Some(*chosen));
        }
        assert_eq!(engine.frontier.get(c), None);
        settled.push((c, engine.cost(c).unwrap(), engine.result.choice(c).unwrap()));
    }
    assert_eq!(settled.len(), 3);
    assert_eq!(engine.settle_next(&g, &parents), None);
    for (class, cost, chosen) in settled.iter() {
        assert_eq!(engine.cost(*class), Some(*cost));
        assert_eq!(engine.result.choice(*class), Some(*chosen));
    }
}

#[test]
fn classes_are_settled_by_rising_cost() {
    let g = small_graph();
    assert_eq!(g.validate(), Ok(()));
    let parents = compute_class_parents(&g);
    let mut engine = Engine::new(&g, &parents);
    let mut order = Vec::new();
    let mut last = 0;
    while let Some(c) = engine.settle_next(&g, &parents) {
        let cost = engine.cost(c).unwrap();
        assert!(cost >= last);
        last = cost;
        order.push(c);
    }
    assert_eq!(order, vec![0, 1, 2]);
}

#[test]
fn cheapest_leaf_of_a_class_of_leaves_is_chosen() {
    let g = EGraph {
        nodes: vec![node(5, 0, vec![]), node(3, 0, vec![]), node(9, 0, vec![]), node(4, 0, vec![])],
        classes: vec![class(vec![0, 1, 2, 3])],
        root_eclasses: vec![0],
    };
    let engine = run(&g);
    assert_eq!(engine.cost(0), Some(3));
    assert_eq!(engine.result.choice(0), Some(1));
}

#[test]
fn cheaper_node_over_children_beats_a_leaf() {
    // class 1 has a leaf of cost 10 and a node of cost 1 over class 0, which costs 2
    let g = EGraph {
        nodes: vec![node(2, 0, vec![]), node(10, 1, vec![]), node(1, 1, vec![0])],
        classes: vec![class(vec![0]), class(vec![1, 2])],
        root_eclasses: vec![1],
    };
    let engine = run(&g);
    assert_eq!(engine.cost(1), Some(3));
    assert_eq!(engine.result.choice(1), Some(2));
}

#[test]
fn count_follows_distinct_children_and_cost_follows_all() {
    // node 1 names class 0 three times: one count, three times the cost
    let g = EGraph {
        nodes: vec![node(5, 0, vec![]), node(1, 1, vec![0, 0, 0])],
        classes: vec![class(vec![0]), class(vec![1])],
        root_eclasses: vec![1],
    };
    assert_eq!(g.validate(), Ok(()));
    let parents = compute_class_parents(&g);
    let mut engine = Engine::new(&g, &parents);
    assert_eq!(engine.pending, vec![0, 1]);
    assert_eq!(engine.frontier.get(1), Some(Candidate { cost: INFINITY, node: 1 }));
    assert_eq!(engine.settle_next(&g, &parents), Some(0));
    assert_eq!(engine.pending, vec![0, 0]);
    assert_eq!(engine.frontier.get(1), Some(Candidate { cost: 16, node: 1 }));
    assert_eq!(engine.settle_next(&g, &parents), Some(1));
    assert_eq!(engine.cost(1), Some(16));
    assert_eq!(engine.result.tree_cost(&g, &[1]), 16);
    assert_eq!(engine.result.dag_cost(&g, &[1]), 6);
}

#[test]
fn node_is_offered_when_its_last_child_is_settled() {
    // node 3 of class 3 waits for the classes 0, 1 and 2
    let g = EGraph {
        nodes: vec![
            node(1, 0, vec![]),
            node(2, 1, vec![]),
            node(4, 2, vec![]),
            node(10, 3, vec![2, 0, 1]),
        ],
        classes: vec![class(vec![0]), class(vec![1]), class(vec![2]), class(vec![3])],
        root_eclasses: vec![3],
    };
    assert_eq!(g.validate(), Ok(()));
    let parents = compute_class_parents(&g);
    let mut engine = Engine::new(&g, &parents);
    assert_eq!(engine.pending[3], 3);
    assert_eq!(engine.settle_next(&g, &parents), Some(0));
    assert_eq!(engine.pending[3], 2);
    assert_eq!(engine.frontier.get(3), Some(Candidate { cost: INFINITY, node: 3 }));
    assert_eq!(engine.settle_next(&g, &parents), Some(1));
    assert_eq!(engine.pending[3], 1);
    assert_eq!(engine.frontier.get(3), Some(Candidate { cost: INFINITY, node: 3 }));
    assert_eq!(engine.settle_next(&g, &parents), Some(2));
    assert_eq!(engine.pending[3], 0);
    assert_eq!(engine.frontier.get(3), Some(Candidate { cost: 17, node: 3 }));
    assert_eq!(engine.settle_next(&g, &parents), Some(3));
    assert_eq!(engine.pending[3], 0);
    assert_eq!(engine.cost(3), Some(17));
    assert_eq!(engine.settle_next(&g, &parents), None);
}

#[test]
fn node_of_a_settled_class_is_not_offered() {
    // class 1 settles by its leaf before class 0 does; node 2 is never counted down
    let g = EGraph {
        nodes: vec![node(9, 0, vec![]), node(1, 1, vec![]), node(0, 1, vec![0])],
        classes: vec![class(vec![0]), class(vec![1, 2])],
        root_eclasses: vec![1],
    };
    assert_eq!(g.validate(), Ok(()));
    let parents = compute_class_parents(&g);
    let mut engine = Engine::new(&g, &parents);
    assert_eq!(engine.settle_next(&g, &parents), Some(1));
    assert_eq!(engine.settle_next(&g, &parents), Some(0));
    assert_eq!(engine.pending[2], 1);
    assert_eq!(engine.cost(1), Some(1));
    assert_eq!(engine.result.choice(1), Some(1));
}

#[test]
fn class_without_a_finite_candidate_is_settled_as_infinite() {
    // class 1 has only a node over itself
    let g = EGraph {
        nodes: vec![node(1, 0, vec![]), node(1, 1, vec![1])],
        classes: vec![class(vec![0]), class(vec![1])],
        root_eclasses: vec![0],
    };
    let engine = run(&g);
    assert_eq!(engine.cost(0), Some(1));
    assert_eq!(engine.cost(1), Some(INFINITY));
    assert_eq!(engine.result.choice(1), Some(1));
    assert!(engine.result.find_cycles(&g, &[0]).is_empty());
    assert_eq!(engine.result.find_cycles(&g, &[1]), vec![1]);
    assert_eq!(engine.result.tree_cost(&g, &[1]), INFINITY);
    assert_eq!(engine.result.tree_cost(&g, &[0]), 1);
}

#[test]
fn leaf_of_infinite_cost_is_kept_as_the_choice() {
    let g = EGraph {
        nodes: vec![node(1, 0, vec![0]), node(INFINITY, 0, vec![])],
        classes: vec![class(vec![0, 1])],
        root_eclasses: vec![0],
    };
    let engine = run(&g);
    assert_eq!(engine.cost(0), Some(INFINITY));
    assert_eq!(engine.result.choice(0), Some(1));
    assert!(engine.result.find_cycles(&g, &[0]).is_empty());
}

#[test]
fn cycle_through_the_graph_is_avoided() {
    // class 0: leaf of cost 10, or node of cost 1 over class 1; class 1: node of cost 1 over class 0
    let g = EGraph {
        nodes: vec![node(10, 0, vec![]), node(1, 0, vec![1]), node(1, 1, vec![0])],
        classes: vec![class(vec![0, 1]), class(vec![2])],
        root_eclasses: vec![1],
    };
    let engine = run(&g);
    assert_eq!(engine.cost(0), Some(10));
    assert_eq!(engine.result.choice(0), Some(0));
    assert_eq!(engine.cost(1), Some(11));
    assert!(engine.result.find_cycles(&g, &[1]).is_empty());
    assert!(engine.result.find_cycles(&g, &[0, 1]).is_empty());
}

#[test]
fn dag_cost_of_a_tree_is_the_sum_of_all_costs() {
    // 4 over (2 over 0 and 1) and 3; one node per class
    let g = EGraph {
        nodes: vec![
            node(3, 0, vec![]),
            node(5, 1, vec![]),
            node(7, 2, vec![0, 1]),
            node(11, 3, vec![]),
            node(13, 4, vec![2, 3]),
        ],
        classes: vec![class(vec![0]), class(vec![1]), class(vec![2]), class(vec![3]), class(vec![4])],
        root_eclasses: vec![4],
    };
    let engine = run(&g);
    assert_eq!(engine.result.dag_cost(&g, &g.root_eclasses), 3 + 5 + 7 + 11 + 13);
    assert_eq!(engine.result.tree_cost(&g, &g.root_eclasses), 39);
    assert_eq!(engine.cost(4), Some(39));
}

#[test]
fn dag_cost_of_a_chain_is_the_sum_of_all_costs() {
    let g = chain(50);
    let engine = run(&g);
    assert_eq!(engine.result.dag_cost(&g, &g.root_eclasses), 50 * 51 / 2);
    assert_eq!(engine.result.tree_cost(&g, &g.root_eclasses), 50 * 51 / 2);
    assert!(engine.result.find_cycles(&g, &g.root_eclasses).is_empty());
}

#[test]
fn shared_class_is_paid_once_in_the_graph_and_twice_in_the_tree() {
    // class 2 uses class 1 twice, class 1 uses class 0 twice
    let g = EGraph {
        nodes: vec![node(1, 0, vec![]), node(1, 1, vec![0, 0]), node(1, 2, vec![1, 1])],
        classes: vec![class(vec![0]), class(vec![1]), class(vec![2])],
        root_eclasses: vec![2],
    };
    let engine = run(&g);
    assert_eq!(engine.cost(1), Some(3));
    assert_eq!(engine.cost(2), Some(7));
    assert_eq!(engine.result.tree_cost(&g, &[2]), 7);
    assert_eq!(engine.result.dag_cost(&g, &[2]), 3);
    assert_eq!(engine.result.tree_cost(&g, &[2, 2, 0]), 15);
    assert_eq!(engine.result.dag_cost(&g, &[2, 2, 0]), 3);
    assert_eq!(engine.result.tree_cost(&g, &[]), 0);
    assert_eq!(engine.result.dag_cost(&g, &[]), 0);
}

#[test]
fn find_cycles_reports_where_a_walk_closes() {
    // chosen by hand: 0 -> 1 -> 2 -> 0
    let g = EGraph {
        nodes: vec![node(1, 0, vec![1]), node(1, 1, vec![2]), node(1, 2, vec![0]), node(1, 3, vec![])],
        classes: vec![class(vec![0]), class(vec![1]), class(vec![2]), class(vec![3])],
        root_eclasses: vec![0],
    };
    assert_eq!(g.validate(), Ok(()));
    let mut result = ExtractionResult::new();
    for c in 0..4 {
        result.commit(c, c);
    }
    assert!(result.is_selection(&g));
    assert_eq!(result.find_cycles(&g, &[0]), vec![0]);
    assert_eq!(result.find_cycles(&g, &[1]), vec![1]);
    assert!(result.find_cycles(&g, &[3]).is_empty());
    assert!(result.find_cycles(&g, &[]).is_empty());
    assert_eq!(result.tree_cost(&g, &[0]), INFINITY);
    assert_eq!(result.tree_cost(&g, &[3]), 1);
    assert_eq!(result.dag_cost(&g, &[0]), 3);
    assert_eq!(result.dag_cost(&g, &[3, 1]), 4);
}

#[test]
fn commit_records_and_replaces_a_choice() {
    let mut result = ExtractionResult::new();
    assert_eq!(result.choice(4), None);
    result.commit(4, 7);
    assert_eq!(result.choice(4), Some(7));
    assert_eq!(result.choice(7), None);
    result.commit(4, 9);
    assert_eq!(result.choice(4), Some(9));
    result.commit(2, 1);
    assert_eq!(result.choice(2), Some(1));
    assert_eq!(result.choice(4), Some(9));
    assert_eq!(result.choices.len(), 2);
}

#[test]
fn is_selection_wants_a_node_of_each_class() {
    let g = small_graph();
    let mut result = ExtractionResult::new();
    assert!(!result.is_selection(&g));
    result.commit(0, 0);
    result.commit(1, 2);
    assert!(!result.is_selection(&g));
    result.commit(2, 1);
    assert!(!result.is_selection(&g));
    result.commit(2, 17);
    assert!(!result.is_selection(&g));
    result.commit(2, 3);
    assert!(result.is_selection(&g));
}

#[test]
fn settle_all_rejects_a_malformed_graph() {
    let mut g = small_graph();
    g.nodes[2].children = vec![5];
    assert_eq!(settle_all(&g).err(), Some(MalformedGraph));
}

#[test]
fn settle_all_runs_on_a_well_formed_graph() {
    let g = small_graph();
    match settle_all(&g) {
        Ok(engine) => {
            assert!(engine.is_finished());
            assert_eq!(engine.cost(2), Some(3));
            assert_eq!(engine.cost(3), None);
        },
        Err(_) => panic!("the graph is well formed"),
    }
}

#[test]
fn settle_all_on_an_empty_graph_settles_nothing() {
    let g = EGraph { nodes: vec![], classes: vec![], root_eclasses: vec![] };
    match settle_all(&g) {
        Ok(engine) => {
            assert!(engine.is_finished());
            assert_eq!(engine.result.choices.len(), 0);
            assert_eq!(engine.result.dag_cost(&g, &[]), 0);
        },
        Err(_) => panic!("the graph is well formed"),
    }
}

#[test]
fn costs_that_overflow_settle_as_infinite() {
    let g = EGraph {
        nodes: vec![node(1 << 63, 0, vec![]), node(0, 1, vec![0, 0])],
        classes: vec![class(vec![0]), class(vec![1])],
        root_eclasses: vec![1],
    };
    let engine = run(&g);
    assert_eq!(engine.cost(0), Some(1 << 63));
    assert_eq!(engine.cost(1), Some(INFINITY));
    assert_eq!(engine.result.dag_cost(&g, &[1]), 1 << 63);
}

#[test]
fn long_chain_is_settled_from_the_leaf_up() {
    let g = chain(300);
    assert_eq!(g.validate(), Ok(()));
    let parents = compute_class_parents(&g);
    let mut engine = Engine::new(&g, &parents);
    for i in 0..300 {
        assert_eq!(engine.settle_next(&g, &parents), Some(i));
        assert_eq!(engine.cost(i), Some(((i + 1) * (i + 2) / 2) as u64));
    }
    assert_eq!(engine.settle_next(&g, &parents), None);
}

#[test]
fn chosen_gives_the_node_of_a_class_that_has_one() {
    let mut result = ExtractionResult::new();
    result.commit(3, 8);
    result.commit(1, 5);
    assert_eq!(result.chosen(3), 8);
    assert_eq!(result.chosen(1), 5);
}

#[test]
fn settled_cost_is_the_tree_cost_of_the_class() {
    let g = EGraph {
        nodes: vec![
            node(2, 0, vec![]),
            node(1, 1, vec![0, 0]),
            node(9, 1, vec![]),
            node(3, 2, vec![1, 0, 1]),
            node(1, 3, vec![3]),
        ],
        classes: vec![class(vec![0]), class(vec![1, 2]), class(vec![3]), class(vec![4])],
        root_eclasses: vec![2],
    };
    let engine = run(&g);
    for c in 0..3 {
        assert_eq!(engine.cost(c), Some(engine.result.tree_cost(&g, &[c])));
    }
    assert_eq!(engine.cost(0), Some(2));
    assert_eq!(engine.cost(1), Some(5));
    assert_eq!(engine.cost(2), Some(15));
    assert_eq!(engine.cost(3), Some(INFINITY));
    assert_eq!(engine.result.tree_cost(&g, &[3]), INFINITY);
    assert_eq!(engine.result.dag_cost(&g, &[2]), 6);
}

#[test]
fn root_settled_with_a_leaf_has_no_cycle() {
    // class 1 can only be had through itself; class 0 has a leaf of infinite cost
    let g = EGraph {
        nodes: vec![node(INFINITY, 0, vec![]), node(0, 0, vec![1]), node(0, 1, vec![1])],
        classes: vec![class(vec![0, 1]), class(vec![2])],
        root_eclasses: vec![0],
    };
    let engine = run(&g);
    assert_eq!(engine.cost(0), Some(INFINITY));
    assert_eq!(engine.result.choice(0), Some(0));
    assert!(engine.result.find_cycles(&g, &[0]).is_empty());
    assert_eq!(engine.result.find_cycles(&g, &[1]), vec![1]);
}
