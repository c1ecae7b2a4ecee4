use arith_arena::arena::{Arena, Node, NodeRef};

#[test]
fn test_add_node() {
    let mut arena: Arena<i32> = Arena::new();
    let node = arena.add_node(10);
    assert_eq!(arena.len(), 1);
    assert_eq!(*arena.get(node).value(), 10);
}

#[test]
fn test_add_edge() {
    let mut arena: Arena<i32> = Arena::new();
    let node1 = arena.add_node(10);
    let node2 = arena.add_node(20);

    arena.add_edge(node1, node2);

    assert_eq!(arena.get(node1).get_edges().len(), 1);
    assert_eq!(*arena.get(arena.get(node1).get_edges()[0]).value(), 20);
}

#[test]
fn test_display_arena() {
    let mut arena: Arena<i32> = Arena::new();
    arena.add_node(10);
    arena.add_node(20);

    assert_eq!(arena.to_string(), "[10, 20]");
}

#[test]
fn test_display_node() {
    let node = Node::new(10);

    assert_eq!(node.to_string(), "10");
}

#[test]
fn display_ignores_edges_added_later() {
    let mut arena: Arena<i32> = Arena::new();
    let a = arena.add_node(10);
    let b = arena.add_node(20);
    arena.add_edge(a, b);
    arena.add_edge(b, a);
    assert_eq!(arena.to_string(), "[10, 20]");
}

#[test]
fn display_empty_and_negative() {
    let mut arena: Arena<i32> = Arena::new();
    assert_eq!(arena.to_string(), "[]");
    arena.add_node(-7);
    assert_eq!(arena.to_string(), "[-7]");
    arena.add_node(0);
    arena.add_node(i32::MIN);
    assert_eq!(arena.to_string(), "[-7, 0, -2147483648]");
    assert_eq!(Node::new(-305).to_string(), "-305");
}

#[test]
fn root_is_first_node() {
    let mut arena: Arena<i32> = Arena::new();
    assert_eq!(arena.get_root(), None);
    let first = arena.add_node(3);
    arena.add_node(4);
    assert_eq!(arena.get_root(), Some(first));
    assert_eq!(first, NodeRef { index: 0 });
}

#[test]
fn node_edges_keep_order() {
    let mut node = Node::new(1);
    assert!(node.get_edges().is_empty());
    node.add_edges(NodeRef { index: 2 });
    node.add_edges(NodeRef { index: 0 });
    assert_eq!(node.get_edges(), &vec![NodeRef { index: 2 }, NodeRef { index: 0 }]);
    assert_eq!(*node.value(), 1);
}

#[test]
fn default_arena_is_empty() {
    let arena: Arena<u8> = Arena::default();
    assert_eq!(arena.len(), 0);
}
