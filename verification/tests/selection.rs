use std::cmp::Ordering;

use poldercast::candidates::available_candidates;
use poldercast::selection::{by_proximity, closest_addresses, rank_closest_nodes};
use poldercast::{Address, Node, NodeProfile, Nodes, Vicinity};

fn node(id: u64, interest: u64) -> Node {
    Node::new(Address::new(id), NodeProfile::new(Some(Address::new(id)), interest))
}

fn target(interest: u64) -> NodeProfile {
    NodeProfile::new(None, interest)
}

fn addresses(ids: &[u64]) -> Vec<Address> {
    ids.iter().map(|id| Address::new(*id)).collect()
}

fn sorted(mut selected: Vec<Address>) -> Vec<Address> {
    selected.sort();
    selected
}

#[test]
fn proximity_is_the_absolute_difference() {
    assert_eq!(target(3).proximity(&target(10)), 7);
    assert_eq!(target(10).proximity(&target(3)), 7);
    assert_eq!(target(5).proximity(&target(5)), 0);
    assert_eq!(target(0).proximity(&target(u64::MAX)), u64::MAX);
    assert_eq!(target(u64::MAX).proximity(&target(0)), u64::MAX);
}

#[test]
fn profile_and_node_keep_what_they_were_made_of() {
    let profile = NodeProfile::new(Some(Address::new(7)), 42);
    assert_eq!(profile.address(), Some(&Address::new(7)));
    assert_eq!(NodeProfile::new(None, 42).address(), None);
    let node = Node::new(Address::new(8), profile);
    assert_eq!(*node.address(), Address::new(8));
    assert_eq!(*node.profile(), profile);
    assert_eq!(Address::new(8).id(), 8);
}

#[test]
fn addresses_are_ordered_by_their_number() {
    assert!(Address::new(1) < Address::new(2));
    assert!(Address::new(2) > Address::new(1));
    assert_eq!(Address::new(3), Address::new(3));
    assert_ne!(Address::new(3), Address::new(4));
}

#[test]
fn by_proximity_compares_distances_to_the_target() {
    let to = target(10);
    assert_eq!(by_proximity(&to, &node(1, 11), &node(2, 15)), Ordering::Less);
    assert_eq!(by_proximity(&to, &node(1, 15), &node(2, 11)), Ordering::Greater);
    assert_eq!(by_proximity(&to, &node(1, 9), &node(2, 11)), Ordering::Equal);
    assert_eq!(by_proximity(&to, &node(1, 10), &node(2, 10)), Ordering::Equal);
}

#[test]
fn closest_addresses_takes_the_head_of_a_ranking() {
    let a = node(1, 0);
    let b = node(2, 1);
    let c = node(3, 2);
    let ranked = vec![&a, &b, &c];
    assert_eq!(closest_addresses(&ranked, 2), addresses(&[1, 2]));
    assert_eq!(closest_addresses(&ranked, 3), addresses(&[1, 2, 3]));
    assert_eq!(closest_addresses(&ranked, 7), addresses(&[1, 2, 3]));
    assert_eq!(closest_addresses(&ranked, 0), addresses(&[]));
    assert_eq!(closest_addresses(&Vec::new(), 4), addresses(&[]));
}

#[test]
fn rank_closest_nodes_puts_the_nearest_first() {
    let far = node(1, 109);
    let mid = node(2, 95);
    let near = node(3, 103);
    let nearest = node(4, 99);
    let to = target(100);
    let pool = vec![&far, &mid, &near, &nearest];
    assert_eq!(rank_closest_nodes(&to, pool.clone(), 4), addresses(&[4, 3, 2, 1]));
    assert_eq!(rank_closest_nodes(&to, pool.clone(), 2), addresses(&[4, 3]));
    assert_eq!(rank_closest_nodes(&to, pool, 0), addresses(&[]));
}

#[test]
fn rank_closest_nodes_sorts_a_large_pool() {
    let nodes: Vec<Node> = (0..5000u64).map(|id| node(id, (id * 7919) % 5003)).collect();
    let pool: Vec<&Node> = nodes.iter().collect();
    let to = target(0);
    let selected = rank_closest_nodes(&to, pool, 5000);
    assert_eq!(selected.len(), 5000);
    for pair in selected.windows(2) {
        let left = (pair[0].id() * 7919) % 5003;
        let right = (pair[1].id() * 7919) % 5003;
        assert!(left <= right);
    }
    assert_eq!(sorted(selected), (0..5000u64).map(Address::new).collect::<Vec<_>>());
}

#[test]
fn selection_length_is_the_smaller_of_limit_and_pool() {
    let layer = Vicinity::new(20, 10);
    let nodes: Vec<Node> = (0..6u64).map(|id| node(id, id * 3)).collect();
    let to = target(4);
    for limit in 0..10usize {
        let pool: Vec<&Node> = nodes.iter().collect();
        let selected = layer.select_closest_nodes(&to, pool, limit);
        assert_eq!(selected.len(), limit.min(6));
    }
}

#[test]
fn selection_from_an_empty_pool_is_empty() {
    let layer = Vicinity::new(20, 10);
    assert_eq!(layer.select_closest_nodes(&target(1), Vec::new(), 5), addresses(&[]));
    assert_eq!(layer.select_closest_nodes(&target(1), Vec::new(), 0), addresses(&[]));
}

#[test]
fn selection_with_limit_zero_is_empty() {
    let layer = Vicinity::new(20, 10);
    let a = node(1, 1);
    let b = node(2, 2);
    assert_eq!(layer.select_closest_nodes(&target(1), vec![&a, &b], 0), addresses(&[]));
}

#[test]
fn selection_with_a_generous_limit_returns_the_whole_pool_sorted() {
    let layer = Vicinity::new(20, 10);
    let a = node(1, 50);
    let b = node(2, 10);
    let c = node(3, 30);
    let to = target(0);
    assert_eq!(layer.select_closest_nodes(&to, vec![&a, &b, &c], 3), addresses(&[2, 3, 1]));
    assert_eq!(layer.select_closest_nodes(&to, vec![&a, &b, &c], 100), addresses(&[2, 3, 1]));
    assert_eq!(
        layer.select_closest_nodes(&to, vec![&a, &b, &c], usize::MAX),
        addresses(&[2, 3, 1])
    );
}

#[test]
fn selection_holds_no_address_twice() {
    let layer = Vicinity::new(20, 10);
    let nodes: Vec<Node> = (0..40u64).map(|id| node(id, id % 4)).collect();
    let to = target(2);
    for _ in 0..20 {
        let selected = layer.select_closest_nodes(&to, nodes.iter().collect(), 25);
        let mut seen = sorted(selected.clone());
        seen.dedup();
        assert_eq!(seen.len(), selected.len());
    }
}

#[test]
fn selection_is_sorted_and_holds_the_nearest() {
    let layer = Vicinity::new(20, 10);
    // interests 0..=29, three nodes each; the target sits at 0
    let nodes: Vec<Node> = (0..90u64).map(|id| node(id, id / 3)).collect();
    let to = target(0);
    for _ in 0..20 {
        let selected = layer.select_closest_nodes(&to, nodes.iter().collect(), 10);
        assert_eq!(selected.len(), 10);
        let distances: Vec<u64> = selected.iter().map(|address| address.id() / 3).collect();
        assert_eq!(distances, vec![0, 0, 0, 1, 1, 1, 2, 2, 2, 3]);
        // the nodes at distance 0, 1 and 2 are all in; which one at distance 3 is left open
        assert_eq!(sorted(selected[..9].to_vec()), addresses(&[0, 1, 2, 3, 4, 5, 6, 7, 8]));
        assert!(addresses(&[9, 10, 11]).contains(&selected[9]));
    }
}

#[test]
fn selection_among_equally_near_nodes_varies_between_calls() {
    let layer = Vicinity::new(20, 10);
    let nodes: Vec<Node> = (0..64u64).map(|id| node(id, 7)).collect();
    let to = target(7);
    let first = layer.select_closest_nodes(&to, nodes.iter().collect(), 64);
    assert_eq!(sorted(first.clone()), (0..64u64).map(Address::new).collect::<Vec<_>>());
    let mut differs = false;
    for _ in 0..8 {
        let next = layer.select_closest_nodes(&to, nodes.iter().collect(), 64);
        assert_eq!(sorted(next.clone()), sorted(first.clone()));
        if next != first {
            differs = true;
        }
    }
    assert!(differs);
}

#[test]
fn selection_among_equally_near_nodes_varies_in_membership() {
    let layer = Vicinity::new(20, 10);
    let nodes: Vec<Node> = (0..64u64).map(|id| node(id, 7)).collect();
    let to = target(7);
    let first = sorted(layer.select_closest_nodes(&to, nodes.iter().collect(), 8));
    let mut differs = false;
    for _ in 0..8 {
        let next = sorted(layer.select_closest_nodes(&to, nodes.iter().collect(), 8));
        assert_eq!(next.len(), 8);
        if next != first {
            differs = true;
        }
    }
    assert!(differs);
}

#[test]
fn candidates_follow_the_listing_and_leave_out_the_excluded() {
    let mut nodes = Nodes::new();
    for id in [5u64, 3, 9, 1] {
        nodes.insert(node(id, id));
    }
    let all: Vec<Address> =
        available_candidates(&nodes, None).iter().map(|node| *node.address()).collect();
    assert_eq!(all, addresses(&[5, 3, 9, 1]));
    let excluded = Address::new(9);
    let without: Vec<Address> = available_candidates(&nodes, Some(&excluded))
        .iter()
        .map(|node| *node.address())
        .collect();
    assert_eq!(without, addresses(&[5, 3, 1]));
    let unknown = Address::new(77);
    assert_eq!(available_candidates(&nodes, Some(&unknown)).len(), 4);
}

#[test]
fn candidates_pass_over_what_the_registry_cannot_resolve() {
    let mut nodes = Nodes::new();
    for id in [5u64, 3, 9, 1] {
        nodes.insert(node(id, id));
    }
    nodes.evict(&Address::new(3));
    let pool: Vec<Address> =
        available_candidates(&nodes, None).iter().map(|node| *node.address()).collect();
    assert_eq!(pool, addresses(&[5, 9, 1]));
    assert_eq!(available_candidates(&Nodes::new(), None).len(), 0);
}
