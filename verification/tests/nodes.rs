use grid_markup::node::{lookup_attribute, node_eq};
use grid_markup::{ElementKind, Node};

#[test]
fn new_plaintext_trims_surrounding_whitespace() {
    let node = Node::new_plaintext("  hello world \n");
    assert_eq!(node, Node::RawText("hello world".as_bytes()));

    let all_ws = Node::new_plaintext(" \t\n ");
    assert_eq!(all_ws, Node::RawText("".as_bytes()));

    let untouched = Node::new_plaintext("no-trim-needed");
    assert_eq!(untouched, Node::RawText("no-trim-needed".as_bytes()));
}

#[test]
fn new_element_builds_the_given_element() {
    let built = Node::new_element(
        ElementKind::Link,
        vec![("href".as_bytes(), "/index".as_bytes())],
        vec![Node::RawText("home".as_bytes())],
    );
    let expected = Node::Element {
        kind: ElementKind::Link,
        attributes: vec![("href".as_bytes(), "/index".as_bytes())],
        content: vec![Node::RawText("home".as_bytes())],
    };
    assert_eq!(built, expected);
}

#[test]
fn attribute_lookup_is_last_wins() {
    let pairs = vec![
        ("data".as_bytes(), "old".as_bytes()),
        ("kind".as_bytes(), "x".as_bytes()),
        ("data".as_bytes(), "new".as_bytes()),
    ];
    assert_eq!(lookup_attribute(&pairs, "data".as_bytes()), Some("new".as_bytes()));
    assert_eq!(lookup_attribute(&pairs, "kind".as_bytes()), Some("x".as_bytes()));
    assert_eq!(lookup_attribute(&pairs, "missing".as_bytes()), None);
}

#[test]
fn equality_ignores_attribute_pair_order() {
    let one = Node::Element {
        kind: ElementKind::Div,
        attributes: vec![
            ("a".as_bytes(), "1".as_bytes()),
            ("b".as_bytes(), "2".as_bytes()),
        ],
        content: vec![],
    };
    let other = Node::Element {
        kind: ElementKind::Div,
        attributes: vec![
            ("b".as_bytes(), "2".as_bytes()),
            ("a".as_bytes(), "1".as_bytes()),
        ],
        content: vec![],
    };
    assert!(node_eq(&one, &other));
    assert_eq!(one, other);

    let different = Node::Element {
        kind: ElementKind::Div,
        attributes: vec![
            ("a".as_bytes(), "1".as_bytes()),
            ("b".as_bytes(), "3".as_bytes()),
        ],
        content: vec![],
    };
    assert!(!node_eq(&one, &different));
    assert_ne!(one, different);
}

#[test]
fn equality_distinguishes_kind_text_and_children() {
    let text = Node::RawText("x".as_bytes());
    let other_text = Node::RawText("y".as_bytes());
    assert_ne!(text, other_text);

    let p = Node::Element {
        kind: ElementKind::P,
        attributes: vec![],
        content: vec![],
    };
    let div = Node::Element {
        kind: ElementKind::Div,
        attributes: vec![],
        content: vec![],
    };
    assert_ne!(p, div);
    assert_ne!(p, text);

    let with_child = Node::Element {
        kind: ElementKind::P,
        attributes: vec![],
        content: vec![Node::RawText("x".as_bytes())],
    };
    assert_ne!(p, with_child);
    assert_eq!(
        with_child,
        Node::Element {
            kind: ElementKind::P,
            attributes: vec![],
            content: vec![Node::RawText("x".as_bytes())],
        }
    );
}
