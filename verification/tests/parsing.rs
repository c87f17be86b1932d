use grid_markup::{parse_str, ElementKind, Node, ParseError};

#[test]
fn simple_element() {
    let actual = parse_str("~h1 { Hello There.\nHow are you doing today? }").unwrap();

    let expected = Node::Element {
        kind: ElementKind::H1,
        content: vec![Node::RawText(" Hello There.\nHow are you doing today? ".as_bytes())],
        attributes: Default::default(),
    };

    assert_eq!(actual, expected);
}

#[test]
fn element_with_attributes() {
    let actual = parse_str("~h1(data: test) { with attributes }").unwrap();

    let expected = Node::Element {
        kind: ElementKind::H1,
        content: vec![Node::RawText(" with attributes ".as_bytes())],
        attributes: vec![("data".as_bytes(), "test".as_bytes())],
    };

    assert_eq!(actual, expected);
}

#[test]
fn nested_elements() {
    let actual = parse_str("~div(data: test) {~p{ with attributes }}").unwrap();

    let expected = Node::Element {
        kind: ElementKind::Div,
        content: vec![Node::Element {
            kind: ElementKind::P,
            content: vec![Node::RawText(" with attributes ".as_bytes())],
            attributes: Default::default(),
        }],
        attributes: vec![("data".as_bytes(), "test".as_bytes())],
    };

    assert_eq!(actual, expected);
}

#[test]
fn heading_with_text() {
    let actual = parse_str("~h1{Hello}").unwrap();

    let expected = Node::Element {
        kind: ElementKind::H1,
        content: vec![Node::RawText("Hello".as_bytes())],
        attributes: vec![],
    };

    assert_eq!(actual, expected);
}

#[test]
fn heading_with_attribute_and_text() {
    let actual = parse_str("~h1(data: test){Hi}").unwrap();

    let expected = Node::Element {
        kind: ElementKind::H1,
        content: vec![Node::RawText("Hi".as_bytes())],
        attributes: vec![("data".as_bytes(), "test".as_bytes())],
    };

    assert_eq!(actual, expected);
}

#[test]
fn unterminated_block_fails() {
    let err = parse_str("~h1{unterminated").unwrap_err();
    assert_eq!(err, ParseError::UnterminatedContent { pos: 16 });
}

#[test]
fn unknown_tag_fails() {
    let err = parse_str("~span{}").unwrap_err();
    assert_eq!(err, ParseError::UnknownElementKind { pos: 1 });
}

#[test]
fn unknown_tag_never_becomes_text() {
    let err = parse_str("~div{~foo{}}").unwrap_err();
    assert_eq!(err, ParseError::UnknownElementKind { pos: 6 });
}

#[test]
fn empty_content_block_is_an_empty_element() {
    let actual = parse_str("~p{}").unwrap();

    let expected = Node::Element {
        kind: ElementKind::P,
        content: vec![],
        attributes: vec![],
    };

    assert_eq!(actual, expected);
}

#[test]
fn empty_attribute_group_fails() {
    let err = parse_str("~p(){}").unwrap_err();
    assert_eq!(err, ParseError::MalformedAttributeList { pos: 3 });
}

#[test]
fn attribute_pair_without_colon_fails() {
    let err = parse_str("~p(data test){}").unwrap_err();
    assert_eq!(err, ParseError::MalformedAttributeList { pos: 8 });
}

#[test]
fn attribute_pair_without_value_fails() {
    let err = parse_str("~p(data: ){}").unwrap_err();
    assert_eq!(err, ParseError::MalformedAttributeList { pos: 9 });
}

#[test]
fn empty_input_is_no_document() {
    assert_eq!(parse_str("").unwrap_err(), ParseError::EmptyDocument);
    assert_eq!(parse_str(" \t\r\n").unwrap_err(), ParseError::EmptyDocument);
}

#[test]
fn text_without_root_element_fails() {
    let err = parse_str("normal text\nhello\nmultiline").unwrap_err();
    assert_eq!(err, ParseError::Lexical { pos: 0 });
}

#[test]
fn trailing_garbage_fails_and_trailing_whitespace_is_ignored() {
    let err = parse_str("~p{} extra").unwrap_err();
    assert_eq!(err, ParseError::Lexical { pos: 5 });

    let ok = parse_str("  ~p{}  \n").unwrap();
    let expected = Node::Element {
        kind: ElementKind::P,
        content: vec![],
        attributes: vec![],
    };
    assert_eq!(ok, expected);
}

#[test]
fn reparse_is_deterministic() {
    let input = "~div(a: x){text ~b{bold} more}";
    let first = parse_str(input).unwrap();
    let second = parse_str(input).unwrap();
    assert_eq!(first, second);
}

#[test]
fn attribute_order_does_not_matter() {
    let one = parse_str("~h1(a: x, b: y){}").unwrap();
    let other = parse_str("~h1(b: y, a: x){}").unwrap();
    assert_eq!(one, other);
}

#[test]
fn later_attribute_pair_wins() {
    let actual = parse_str("~h1(data: old, data: new){}").unwrap();

    let expected = Node::Element {
        kind: ElementKind::H1,
        content: vec![],
        attributes: vec![("data".as_bytes(), "new".as_bytes())],
    };

    assert_eq!(actual, expected);
}

#[test]
fn nesting_depth_matches() {
    let mut node = parse_str("~div{~div{~div{}}}").unwrap();
    let mut depth = 0;
    loop {
        match node {
            Node::Element { kind, content, .. } => {
                assert_eq!(kind, ElementKind::Div);
                depth += 1;
                if content.is_empty() {
                    break;
                }
                assert_eq!(content.len(), 1);
                node = content.into_iter().next().unwrap();
            }
            Node::RawText(_) => panic!("unexpected text"),
        }
    }
    assert_eq!(depth, 3);
}

#[test]
fn missing_closing_brace_fails() {
    let err = parse_str("~div{~div{~div{}}").unwrap_err();
    assert_eq!(err, ParseError::UnterminatedContent { pos: 17 });
}

#[test]
fn mixed_text_and_elements_keep_order() {
    let actual = parse_str("~p{one ~b{two} three}").unwrap();

    let expected = Node::Element {
        kind: ElementKind::P,
        content: vec![
            Node::RawText("one ".as_bytes()),
            Node::Element {
                kind: ElementKind::Bold,
                content: vec![Node::RawText("two".as_bytes())],
                attributes: vec![],
            },
            Node::RawText(" three".as_bytes()),
        ],
        attributes: vec![],
    };

    assert_eq!(actual, expected);
}

#[test]
fn full_vocabulary_resolves() {
    for (tag, kind) in [
        ("html", ElementKind::Html),
        ("h1", ElementKind::H1),
        ("h2", ElementKind::H2),
        ("h3", ElementKind::H3),
        ("div", ElementKind::Div),
        ("p", ElementKind::P),
        ("br", ElementKind::Br),
        ("b", ElementKind::Bold),
        ("link", ElementKind::Link),
    ] {
        assert_eq!(ElementKind::from_tag(tag.as_bytes()), Some(kind));
        let doc = format!("~{}{{}}", tag);
        let parsed = parse_str(&doc).unwrap();
        let expected = Node::Element {
            kind,
            content: vec![],
            attributes: vec![],
        };
        assert_eq!(parsed, expected);
    }
    assert_eq!(ElementKind::from_tag("foo".as_bytes()), None);
    assert_eq!(ElementKind::from_tag("".as_bytes()), None);
}
