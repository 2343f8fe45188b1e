use poldercast::address::contains_address;
use poldercast::{Address, GossipsBuilder, Node, NodeProfile, Nodes, ViewBuilder};

fn peer(id: u64, interest: u64) -> Node {
    Node::new(Address::new(id), NodeProfile::new(Some(Address::new(id)), interest))
}

fn ids(ids: &[u64]) -> Vec<Address> {
    ids.iter().map(|id| Address::new(*id)).collect()
}

#[test]
fn a_new_registry_is_empty() {
    let nodes = Nodes::new();
    assert!(nodes.available_nodes().is_empty());
    assert_eq!(nodes.peek(&Address::new(1)), None);
}

#[test]
fn insert_stores_and_lists_the_node() {
    let mut nodes = Nodes::new();
    assert_eq!(nodes.insert(peer(4, 40)), None);
    assert_eq!(nodes.insert(peer(2, 20)), None);
    assert_eq!(*nodes.available_nodes(), ids(&[4, 2]));
    assert_eq!(nodes.peek(&Address::new(4)), Some(&peer(4, 40)));
    assert_eq!(nodes.peek(&Address::new(2)), Some(&peer(2, 20)));
    assert_eq!(nodes.peek(&Address::new(3)), None);
}

#[test]
fn insert_replaces_the_node_stored_under_the_same_address() {
    let mut nodes = Nodes::new();
    nodes.insert(peer(4, 40));
    nodes.insert(peer(2, 20));
    assert_eq!(nodes.insert(peer(4, 41)), Some(peer(4, 40)));
    assert_eq!(*nodes.available_nodes(), ids(&[4, 2]));
    assert_eq!(nodes.peek(&Address::new(4)), Some(&peer(4, 41)));
    assert_eq!(nodes.peek(&Address::new(2)), Some(&peer(2, 20)));
}

#[test]
fn evict_forgets_the_node_and_keeps_the_listing() {
    let mut nodes = Nodes::new();
    nodes.insert(peer(4, 40));
    nodes.insert(peer(2, 20));
    assert_eq!(nodes.evict(&Address::new(4)), Some(peer(4, 40)));
    assert_eq!(nodes.peek(&Address::new(4)), None);
    assert_eq!(nodes.peek(&Address::new(2)), Some(&peer(2, 20)));
    assert_eq!(*nodes.available_nodes(), ids(&[4, 2]));
    assert_eq!(nodes.evict(&Address::new(4)), None);
    assert_eq!(nodes.evict(&Address::new(9)), None);
    assert_eq!(nodes.insert(peer(4, 44)), None);
    assert_eq!(*nodes.available_nodes(), ids(&[4, 2]));
    assert_eq!(nodes.peek(&Address::new(4)), Some(&peer(4, 44)));
}

#[test]
fn peek_mut_hands_out_the_stored_node() {
    let mut nodes = Nodes::new();
    nodes.insert(peer(4, 40));
    nodes.insert(peer(2, 20));
    assert!(nodes.peek_mut(&Address::new(3)).is_none());
    match nodes.peek_mut(&Address::new(2)) {
        Some(node) => {
            assert_eq!(*node, peer(2, 20));
            *node = peer(2, 25);
        }
        None => panic!("the node is stored"),
    }
    assert_eq!(nodes.peek(&Address::new(2)), Some(&peer(2, 25)));
    assert_eq!(nodes.peek(&Address::new(4)), Some(&peer(4, 40)));
    assert_eq!(*nodes.available_nodes(), ids(&[4, 2]));
}

#[test]
fn evict_leaves_nothing_behind_an_address() {
    let mut nodes = Nodes::new();
    nodes.insert(peer(4, 40));
    nodes.insert(peer(2, 20));
    // hand the second node the address of the first: two nodes now carry it
    match nodes.peek_mut(&Address::new(2)) {
        Some(node) => *node = peer(4, 99),
        None => panic!("the node is stored"),
    }
    assert_eq!(nodes.peek(&Address::new(4)), Some(&peer(4, 40)));
    assert_eq!(nodes.peek(&Address::new(2)), None);
    assert_eq!(nodes.evict(&Address::new(4)), Some(peer(4, 40)));
    assert_eq!(nodes.peek(&Address::new(4)), None);
}

#[test]
fn contains_address_finds_what_is_there() {
    let list = ids(&[3, 1, 2]);
    assert!(contains_address(&list, &Address::new(1)));
    assert!(contains_address(&list, &Address::new(3)));
    assert!(!contains_address(&list, &Address::new(4)));
    assert!(!contains_address(&Vec::new(), &Address::new(4)));
}

#[test]
fn gossips_builder_appends_in_order() {
    let mut builder = GossipsBuilder::new(Address::new(9));
    assert_eq!(*builder.recipient(), Address::new(9));
    assert!(builder.gossips().is_empty());
    builder.add(Address::new(3));
    builder.add(Address::new(1));
    builder.add(Address::new(3));
    assert_eq!(*builder.gossips(), ids(&[3, 1, 3]));
    assert_eq!(*builder.recipient(), Address::new(9));
}

#[test]
fn view_builder_holds_each_peer_once() {
    let mut builder = ViewBuilder::new();
    let mut a = peer(3, 30);
    let mut b = peer(1, 10);
    builder.add(&mut a);
    builder.add(&mut b);
    builder.add(&mut a);
    assert_eq!(a, peer(3, 30));
    assert_eq!(b, peer(1, 10));
    assert_eq!(builder.build(), ids(&[3, 1]));
    assert_eq!(ViewBuilder::new().build(), ids(&[]));
}
