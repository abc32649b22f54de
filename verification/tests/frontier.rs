use extraction_gym::cost::INFINITY;
use extraction_gym::extract::frontier::{Candidate, Frontier};

#[test]
fn new_frontier_is_empty() {
    let mut f = Frontier::new(4);
    assert!(f.is_empty());
    assert_eq!(f.len(), 0);
    assert_eq!(f.get(0), None);
    assert_eq!(f.pop_min(), None);
}

#[test]
fn offer_to_a_class_without_candidate_is_taken() {
    let mut f = Frontier::new(3);
    assert!(f.offer(1, 7, 10));
    assert_eq!(f.len(), 1);
    assert!(!f.is_empty());
    assert_eq!(f.get(1), Some(Candidate { cost: 7, node: 10 }));
    assert_eq!(f.get(0), None);
    assert_eq!(f.get(2), None);
    assert_eq!(f.get(17), None);
}

#[test]
fn cheaper_offer_replaces_the_candidate() {
    let mut f = Frontier::new(3);
    assert!(f.offer(1, 7, 10));
    assert!(f.offer(1, 5, 11));
    assert_eq!(f.len(), 1);
    assert_eq!(f.get(1), Some(Candidate { cost: 5, node: 11 }));
}

#[test]
fn offer_that_is_not_cheaper_is_left_out() {
    let mut f = Frontier::new(3);
    assert!(f.offer(1, 7, 10));
    assert!(!f.offer(1, 7, 11));
    assert!(!f.offer(1, 9, 12));
    assert!(!f.offer(1, INFINITY, 13));
    assert_eq!(f.len(), 1);
    assert_eq!(f.get(1), Some(Candidate { cost: 7, node: 10 }));
}

#[test]
fn infinite_candidate_is_replaced_by_a_finite_one() {
    let mut f = Frontier::new(1);
    assert!(f.offer(0, INFINITY, 3));
    assert!(f.offer(0, INFINITY - 1, 4));
    assert_eq!(f.get(0), Some(Candidate { cost: INFINITY - 1, node: 4 }));
}

#[test]
fn pop_min_takes_the_classes_out_by_rising_cost() {
    let mut f = Frontier::new(8);
    let costs = [50u64, 20, 70, 10, 60, 30, 80, 40];
    for (class, cost) in costs.iter().enumerate() {
        assert!(f.offer(class, *cost, 100 + class));
    }
    assert_eq!(f.len(), 8);
    let mut popped = Vec::new();
    while let Some((class, best)) = f.pop_min() {
        assert_eq!(best.cost, costs[class]);
        assert_eq!(best.node, 100 + class);
        assert_eq!(f.get(class), None);
        popped.push(best.cost);
    }
    assert_eq!(popped, vec![10, 20, 30, 40, 50, 60, 70, 80]);
    assert!(f.is_empty());
}

#[test]
fn pop_min_sees_a_lowered_candidate() {
    let mut f = Frontier::new(5);
    assert!(f.offer(0, 10, 0));
    assert!(f.offer(1, 20, 1));
    assert!(f.offer(2, 30, 2));
    assert!(f.offer(3, 40, 3));
    assert!(f.offer(4, 50, 4));
    assert!(f.offer(4, 5, 44));
    assert!(f.offer(2, 15, 22));
    assert_eq!(f.pop_min(), Some((4, Candidate { cost: 5, node: 44 })));
    assert_eq!(f.pop_min(), Some((0, Candidate { cost: 10, node: 0 })));
    assert_eq!(f.pop_min(), Some((2, Candidate { cost: 15, node: 22 })));
    assert_eq!(f.pop_min(), Some((1, Candidate { cost: 20, node: 1 })));
    assert_eq!(f.pop_min(), Some((3, Candidate { cost: 40, node: 3 })));
    assert_eq!(f.pop_min(), None);
}

#[test]
fn popped_class_can_be_offered_again() {
    let mut f = Frontier::new(2);
    assert!(f.offer(0, 3, 0));
    assert_eq!(f.pop_min(), Some((0, Candidate { cost: 3, node: 0 })));
    assert!(f.offer(0, 9, 1));
    assert_eq!(f.get(0), Some(Candidate { cost: 9, node: 1 }));
    assert_eq!(f.len(), 1);
}

#[test]
fn pop_min_among_equal_costs_gives_each_class_once() {
    let mut f = Frontier::new(6);
    for class in 0..6 {
        assert!(f.offer(class, 4, class));
    }
    let mut seen = vec![false; 6];
    for _ in 0..6 {
        let (class, best) = f.pop_min().unwrap();
        assert_eq!(best.cost, 4);
        assert!(!seen[class]);
        seen[class] = true;
    }
    assert_eq!(f.pop_min(), None);
}

#[test]
fn many_offers_and_pops_stay_in_order() {
    let n = 200usize;
    let mut f = Frontier::new(n);
    for class in 0..n {
        let cost = ((class * 7919) % 1009) as u64 + 1000;
        assert!(f.offer(class, cost, class));
    }
    for class in (0..n).step_by(3) {
        let cost = ((class * 104729) % 997) as u64;
        assert!(f.offer(class, cost, class + n));
    }
    let mut last = 0u64;
    let mut count = 0;
    while let Some((class, best)) = f.pop_min() {
        assert!(best.cost >= last);
        last = best.cost;
        if class % 3 == 0 {
            assert_eq!(best.node, class + n);
        } else {
            assert_eq!(best.node, class);
        }
        count += 1;
    }
    assert_eq!(count, n);
}
