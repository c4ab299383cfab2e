use double_linked_list::node::Node;
use double_linked_list::Node as RootNode;

#[test]
fn new_node_is_detached() {
    let node = Node::new(42u32);
    assert_eq!(node.value, 42);
    assert_eq!(node.next, None);
    assert_eq!(node.prev, None);
}

#[test]
fn node_fields_are_plain_data() {
    let mut node = RootNode::new('x');
    node.next = Some(3);
    node.prev = Some(1);
    let copy = node;
    assert_eq!(copy.value, 'x');
    assert_eq!(copy.next, Some(3));
    assert_eq!(copy.prev, Some(1));
    assert_eq!(node.next, Some(3));
    let cloned = node.clone();
    assert_eq!(cloned.value, 'x');
    assert_eq!(cloned.prev, Some(1));
}
