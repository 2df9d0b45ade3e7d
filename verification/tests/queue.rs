use mgraph::queue::Candidate;
use mgraph::queue::MinQueue;

fn candidate(priority: u64, node: u32) -> Candidate {
    Candidate {
        priority,
        node,
        cost: priority / 2,
    }
}

#[test]
fn queue_hands_out_the_lowest_priority_first() {
    let mut queue = MinQueue::new();
    for priority in [5, 3, 8, 1, 9, 2, 7] {
        queue.push(candidate(priority, 0));
    }

    let mut order = Vec::new();
    while let Some(first) = queue.pop() {
        order.push(first.priority);
    }

    assert_eq!(order, vec![1, 2, 3, 5, 7, 8, 9]);
}

#[test]
fn queue_hands_out_the_lower_node_among_equal_priorities() {
    let mut queue = MinQueue::new();
    queue.push(candidate(4, 9));
    queue.push(candidate(4, 2));
    queue.push(candidate(3, 7));
    queue.push(candidate(4, 5));

    let mut order = Vec::new();
    while let Some(first) = queue.pop() {
        order.push((first.priority, first.node));
    }

    assert_eq!(order, vec![(3, 7), (4, 2), (4, 5), (4, 9)]);
}

#[test]
fn queue_keeps_equal_candidates_apart() {
    let mut queue = MinQueue::new();
    queue.push(candidate(6, 1));
    queue.push(candidate(6, 1));

    assert_eq!(queue.pop().map(|first| first.cost), Some(3));
    assert_eq!(queue.pop().map(|first| first.node), Some(1));
    assert!(queue.pop().is_none());
    assert!(queue.pop().is_none());
}

#[test]
fn queue_orders_many_candidates() {
    let mut queue = MinQueue::new();
    let mut expected = Vec::new();
    let mut seed: u64 = 12345;
    for step in 0..500u32 {
        seed = seed
            .wrapping_mul(6364136223846793005)
            .wrapping_add(1442695040888963407);
        let priority = (seed >> 40) % 50;
        queue.push(candidate(priority, step % 7));
        expected.push((priority, step % 7));
        if step % 3 == 2 {
            expected.sort();
            let first = queue.pop().unwrap();
            assert_eq!((first.priority, first.node), expected.remove(0));
        }
    }
    expected.sort();
    for pair in expected {
        let first = queue.pop().unwrap();
        assert_eq!((first.priority, first.node), pair);
    }
    assert!(queue.pop().is_none());
}
