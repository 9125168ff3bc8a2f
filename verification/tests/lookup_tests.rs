use lazy_iter_core::ast::{AstNode, Node};
use lazy_iter_core::lookup::{Index, Lookup, LookupNode};

fn path() -> Lookup {
    Lookup(vec![
        LookupNode::Id(1),
        LookupNode::Index(Index(2)),
        LookupNode::Call(vec![3, 4]),
    ])
}

#[test]
fn as_slice_sees_the_whole_path() {
    let l = path();
    assert_eq!(l.as_slice().0.len(), 3);
}

#[test]
fn value_slice_is_the_last_step() {
    let l = path();
    let s = l.value_slice();
    assert_eq!(s.0.len(), 1);
    assert!(matches!(s.0[0], LookupNode::Call(_)));
}

#[test]
fn value_node_is_the_last_step() {
    let l = path();
    assert!(matches!(l.value_node(), LookupNode::Call(_)));
}

#[test]
fn slice_value_operations_agree() {
    let l = path();
    let s = l.as_slice();
    assert_eq!(s.value_slice().0.len(), 1);
    assert!(matches!(s.value_node(), LookupNode::Call(_)));
}

#[test]
fn first_n_is_inclusive() {
    let l = path();
    let s = l.as_slice();
    let first_two = s.first_n(1);
    assert_eq!(first_two.0.len(), 2);
    assert!(matches!(first_two.0[0], LookupNode::Id(1)));
}

#[test]
fn ast_nodes_carry_one_based_positions() {
    let text = "one\ntwo";
    let span = pest::Span::new(text, 4, 7).unwrap();
    let node = AstNode::new(span, Node::Id(9));
    assert!(matches!(node.node, Node::Id(9)));
    assert_eq!(node.start_pos.line, 2);
    assert_eq!(node.start_pos.column, 1);
    assert_eq!(node.end_pos.line, 2);
    assert_eq!(node.end_pos.column, 4);
}

#[test]
fn default_ast_node_is_empty_at_origin() {
    let node = AstNode::default();
    assert!(matches!(node.node, Node::Empty));
    assert_eq!(node.start_pos.line, 0);
    assert_eq!(node.end_pos.column, 0);
}
