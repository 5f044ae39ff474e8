use steadyflow::node::Node;

fn parse(s: &str) -> Result<Vec<Node>, steadyflow::ParseError> {
    Node::from_bytes(&s.as_bytes().to_vec())
}

fn value(n: &Node) -> &str {
    std::str::from_utf8(&n.value).unwrap()
}

#[test]
fn inline_node_with_two_leaves() {
    let ns = parse("A: b, c\n").unwrap();
    assert_eq!(ns.len(), 1);
    assert_eq!(value(&ns[0]), "A");
    assert_eq!(ns[0].children.len(), 2);
    assert_eq!(value(&ns[0].children[0]), "b");
    assert_eq!(value(&ns[0].children[1]), "c");
    assert!(ns[0].children[0].children.is_empty());
    assert!(ns[0].children[1].children.is_empty());
}

#[test]
fn nested_node_with_uniform_children() {
    let ns = parse("root\n  one\n  two\n").unwrap();
    assert_eq!(ns.len(), 1);
    assert_eq!(value(&ns[0]), "root");
    assert_eq!(ns[0].children.len(), 2);
    assert_eq!(value(&ns[0].children[0]), "one");
    assert_eq!(value(&ns[0].children[1]), "two");
}

#[test]
fn deeper_nesting() {
    let ns = parse("a\n  b\n    c\n  d\n").unwrap();
    assert_eq!(ns.len(), 1);
    let a = &ns[0];
    assert_eq!(a.children.len(), 2);
    assert_eq!(value(&a.children[0]), "b");
    assert_eq!(a.children[0].children.len(), 1);
    assert_eq!(value(&a.children[0].children[0]), "c");
    assert_eq!(value(&a.children[1]), "d");
}

#[test]
fn mismatched_sibling_indentation_fails() {
    // A line shallower than its siblings but deeper than the parent
    // matches no indentation level.
    assert!(parse("a\n  b\n c\n").is_err());
    assert!(parse("a\n    b\n  c\n").is_err());
}

#[test]
fn deeper_following_line_is_a_child_not_a_sibling() {
    let ns = parse("a\n  b\n   c\n").unwrap();
    assert_eq!(ns.len(), 1);
    assert_eq!(ns[0].children.len(), 1);
    assert_eq!(value(&ns[0].children[0]), "b");
    assert_eq!(value(&ns[0].children[0].children[0]), "c");
}

#[test]
fn mixed_tabs_and_spaces_fail() {
    // The first child fixes the indentation bytes; a tab is not a space.
    assert!(parse("a\n  b\n\t\tc\n").is_err());
}

#[test]
fn children_must_be_strictly_deeper() {
    let ns = parse("a\nb\n").unwrap();
    assert_eq!(ns.len(), 2);
    assert!(ns[0].children.is_empty());
    assert!(ns[1].children.is_empty());
}

#[test]
fn colon_without_space_fails() {
    assert!(parse("a:b\n").is_err());
}

#[test]
fn unterminated_final_line_fails() {
    assert!(parse("a: b").is_err());
}

#[test]
fn empty_input_is_empty_forest() {
    let ns = parse("").unwrap();
    assert!(ns.is_empty());
}

#[test]
fn one_leading_space_per_leaf_is_trimmed() {
    // Exactly one optional space or tab is trimmed after each comma;
    // further whitespace belongs to the leaf.
    let ns = parse("A: b, c,d\n").unwrap();
    assert_eq!(ns[0].children.len(), 3);
    assert_eq!(value(&ns[0].children[0]), "b");
    assert_eq!(value(&ns[0].children[1]), "c");
    assert_eq!(value(&ns[0].children[2]), "d");
    let ns = parse("A: b,   c\n").unwrap();
    assert_eq!(ns[0].children.len(), 2);
    assert_eq!(value(&ns[0].children[1]), "  c");
}

#[test]
fn leaves_may_contain_spaces() {
    let ns = parse("Recipe: Heavy Oil, Light Oil\n").unwrap();
    assert_eq!(value(&ns[0].children[0]), "Heavy Oil");
    assert_eq!(value(&ns[0].children[1]), "Light Oil");
}

#[test]
fn trailing_comma_fails() {
    assert!(parse("A: b,\n").is_err());
}

#[test]
fn two_top_level_trees() {
    let ns = parse("a\n  x\nb: y\n").unwrap();
    assert_eq!(ns.len(), 2);
    assert_eq!(value(&ns[0]), "a");
    assert_eq!(value(&ns[1]), "b");
}

#[test]
fn leaf_constructor_has_no_children() {
    let n = Node::leaf(b"x".to_vec());
    assert_eq!(n.value, b"x".to_vec());
    assert!(n.children.is_empty());
}
