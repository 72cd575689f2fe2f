use browser_engine::{AttrMap, Node, NodeType, ParseError, Parser};

fn at(input: &str, position: usize) -> Parser {
    Parser { position, input: input.to_string() }
}

#[test]
fn new_parser_stands_at_the_start() {
    let parser = Parser::new("abc".to_string());
    assert_eq!(parser.position, 0);
    assert_eq!(parser.input, "abc");
}

#[test]
fn eof_at_and_behind_the_end() {
    assert!(at("", 0).eof());
    assert!(!at("a", 0).eof());
    assert!(at("a", 1).eof());
    assert!(at("a", 7).eof());
    assert!(!at("é", 0).eof());
    assert!(at("é", 2).eof());
}

#[test]
fn next_char_does_not_consume() {
    let parser = at("xy", 1);
    assert_eq!(parser.next_char(), Ok('y'));
    assert_eq!(parser.next_char(), Ok('y'));
    assert_eq!(parser.position, 1);
}

#[test]
fn next_char_at_the_end_fails() {
    assert_eq!(at("xy", 2).next_char(), Err(ParseError::UnexpectedEof));
    assert_eq!(at("", 0).next_char(), Err(ParseError::UnexpectedEof));
}

#[test]
fn next_char_reads_a_whole_character() {
    assert_eq!(at("a世b", 1).next_char(), Ok('世'));
    assert_eq!(at("a世b", 4).next_char(), Ok('b'));
}

#[test]
fn starts_with_looks_at_the_remaining_input() {
    let parser = at("<a></a>", 3);
    assert!(parser.starts_with("</"));
    assert!(parser.starts_with("</a>"));
    assert!(parser.starts_with(""));
    assert!(!parser.starts_with("<a"));
    assert!(!parser.starts_with("</a>x"));
    assert!(at("", 0).starts_with(""));
    assert!(!at("", 0).starts_with("a"));
}

#[test]
fn expect_consumes_the_literal() {
    let mut parser = at("</a>", 0);
    assert_eq!(parser.expect("</"), Ok(()));
    assert_eq!(parser.position, 2);
    assert_eq!(parser.expect("a>"), Ok(()));
    assert_eq!(parser.position, 4);
    assert_eq!(parser.expect(""), Ok(()));
    assert_eq!(parser.position, 4);
}

#[test]
fn expect_counts_bytes() {
    let mut parser = at("→x", 0);
    assert_eq!(parser.expect("→"), Ok(()));
    assert_eq!(parser.position, 3);
}

#[test]
fn expect_of_other_text_fails_and_consumes_nothing() {
    let mut parser = at("<a>", 1);
    assert_eq!(
        parser.expect(">"),
        Err(ParseError::LiteralMismatch { expected: ">".to_string(), position: 1 })
    );
    assert_eq!(parser.position, 1);
    assert_eq!(
        parser.expect("ab"),
        Err(ParseError::LiteralMismatch { expected: "ab".to_string(), position: 1 })
    );
    assert_eq!(parser.position, 1);
}

#[test]
fn expect_behind_the_end_fails_with_eof() {
    let mut parser = at("<a", 2);
    assert_eq!(parser.expect(">"), Err(ParseError::UnexpectedEof));
    let mut parser = at("<a><", 3);
    assert_eq!(parser.expect("</"), Err(ParseError::UnexpectedEof));
    assert_eq!(parser.position, 3);
}

#[test]
fn consume_char_moves_by_the_width_of_the_character() {
    let mut parser = at("a¢€😀", 0);
    assert_eq!(parser.consume_char(), Ok('a'));
    assert_eq!(parser.position, 1);
    assert_eq!(parser.consume_char(), Ok('¢'));
    assert_eq!(parser.position, 3);
    assert_eq!(parser.consume_char(), Ok('€'));
    assert_eq!(parser.position, 6);
    assert_eq!(parser.consume_char(), Ok('😀'));
    assert_eq!(parser.position, 10);
    assert_eq!(parser.consume_char(), Err(ParseError::UnexpectedEof));
    assert_eq!(parser.position, 10);
}

#[test]
fn consume_while_stops_at_the_first_refused_character() {
    let mut parser = at("aaab", 0);
    assert_eq!(parser.consume_while(|c| c == 'a'), "aaa");
    assert_eq!(parser.position, 3);
    assert_eq!(parser.consume_while(|c| c == 'a'), "");
    assert_eq!(parser.position, 3);
}

#[test]
fn consume_while_stops_at_the_end() {
    let mut parser = at("ééé", 2);
    assert_eq!(parser.consume_while(|_| true), "éé");
    assert_eq!(parser.position, 6);
    assert_eq!(parser.consume_while(|_| true), "");
}

#[test]
fn consume_whitespace_skips_all_kinds() {
    let mut parser = at(" \t\r\n\u{a0}\u{2028}x y", 0);
    parser.consume_whitespace();
    assert_eq!(parser.position, 9);
    assert_eq!(parser.next_char(), Ok('x'));
    parser.consume_whitespace();
    assert_eq!(parser.position, 9);
}

#[test]
fn parse_name_reads_letters_and_digits() {
    let mut parser = at("Div2-x", 0);
    assert_eq!(parser.parse_name(), "Div2");
    assert_eq!(parser.position, 4);
    assert_eq!(parser.parse_name(), "");
    assert_eq!(parser.position, 4);
}

#[test]
fn parse_name_stops_at_letters_outside_ascii() {
    let mut parser = at("abçd", 0);
    assert_eq!(parser.parse_name(), "ab");
    assert_eq!(parser.position, 2);
    let mut parser = at("a_b", 0);
    assert_eq!(parser.parse_name(), "a");
}

#[test]
fn parse_text_reads_up_to_the_next_tag() {
    let mut parser = at("a b <c>", 0);
    let node = parser.parse_text();
    assert!(matches!(&node.node_type, NodeType::Text(content) if content == "a b "));
    assert_eq!(node.children.len(), 0);
    assert_eq!(parser.position, 4);
}

#[test]
fn parse_text_may_be_empty() {
    let mut parser = at("<c>", 0);
    let node = parser.parse_text();
    assert!(matches!(&node.node_type, NodeType::Text(content) if content.is_empty()));
    assert_eq!(parser.position, 0);
    let mut parser = at("", 0);
    let node = parser.parse_text();
    assert!(matches!(&node.node_type, NodeType::Text(content) if content.is_empty()));
}

#[test]
fn parse_attr_value_reads_between_the_quotes() {
    let mut parser = at("\"one\" 'two'", 0);
    assert_eq!(parser.parse_attr_value(), Ok("one".to_string()));
    assert_eq!(parser.position, 5);
    parser.consume_whitespace();
    assert_eq!(parser.parse_attr_value(), Ok("two".to_string()));
    assert_eq!(parser.position, 11);
}

#[test]
fn parse_attr_value_failures() {
    assert_eq!(at("", 0).parse_attr_value(), Err(ParseError::UnexpectedEof));
    assert_eq!(at("'abc", 0).parse_attr_value(), Err(ParseError::UnexpectedEof));
    assert_eq!(at("'", 0).parse_attr_value(), Err(ParseError::UnexpectedEof));
    assert_eq!(at("'abc\"", 0).parse_attr_value(), Err(ParseError::QuoteMismatch));
    assert_eq!(at("\"1'>", 0).parse_attr_value(), Err(ParseError::QuoteMismatch));
    assert_eq!(at("abc", 0).parse_attr_value(), Err(ParseError::QuoteMismatch));
}

#[test]
fn parse_attr_reads_name_and_value() {
    let mut parser = at("href='x.html'>", 0);
    assert_eq!(parser.parse_attr(), Ok(("href".to_string(), "x.html".to_string())));
    assert_eq!(parser.position, 13);
}

#[test]
fn parse_attr_without_the_sign_fails() {
    assert_eq!(
        at("href 'x'", 0).parse_attr(),
        Err(ParseError::LiteralMismatch { expected: "=".to_string(), position: 4 })
    );
    assert_eq!(at("href", 0).parse_attr(), Err(ParseError::UnexpectedEof));
}

#[test]
fn parse_attributes_stops_in_front_of_the_closing_bracket() {
    let mut parser = at("<a x=\"1\" y='two'>", 2);
    let attrs = parser.parse_attributes().unwrap();
    assert_eq!(attrs.len(), 2);
    assert_eq!(attrs.get("x").map(|v| v.as_str()), Some("1"));
    assert_eq!(attrs.get("y").map(|v| v.as_str()), Some("two"));
    assert_eq!(parser.position, 16);
    assert_eq!(parser.next_char(), Ok('>'));
}

#[test]
fn parse_attributes_later_duplicate_wins() {
    let mut parser = at(" x=\"1\" y='two' x=\"2\">", 0);
    let attrs = parser.parse_attributes().unwrap();
    assert_eq!(attrs.len(), 2);
    assert_eq!(attrs.get("x").map(|v| v.as_str()), Some("2"));
    assert_eq!(attrs.get("y").map(|v| v.as_str()), Some("two"));
}

#[test]
fn parse_attributes_without_attributes() {
    let mut parser = at("  >", 0);
    let attrs = parser.parse_attributes().unwrap();
    assert_eq!(attrs.len(), 0);
    assert_eq!(parser.position, 2);
}

#[test]
fn parse_attributes_at_the_end_of_input_fails() {
    assert_eq!(at(" x='1' ", 0).parse_attributes().unwrap_err(), ParseError::UnexpectedEof);
    assert_eq!(at("", 0).parse_attributes().unwrap_err(), ParseError::UnexpectedEof);
}

#[test]
fn parse_element_reads_to_the_end_of_the_closing_tag() {
    let mut parser = at("<a k='v'>t</a>rest", 0);
    let node = parser.parse_element().unwrap();
    assert_eq!(parser.position, 14);
    assert!(matches!(&node.node_type, NodeType::Element(data) if data.tag_name == "a"));
    assert_eq!(node.children.len(), 1);
}

#[test]
fn parse_element_needs_an_opening_bracket() {
    assert_eq!(
        at("a></a>", 0).parse_element().unwrap_err(),
        ParseError::LiteralMismatch { expected: "<".to_string(), position: 0 }
    );
    assert_eq!(at("", 0).parse_element().unwrap_err(), ParseError::UnexpectedEof);
}

#[test]
fn parse_node_chooses_by_the_first_character() {
    let mut parser = at("<a></a>", 0);
    let node = parser.parse_node().unwrap();
    assert!(matches!(&node.node_type, NodeType::Element(_)));
    let mut parser = at("a<a></a>", 0);
    let node = parser.parse_node().unwrap();
    assert!(matches!(&node.node_type, NodeType::Text(content) if content == "a"));
    assert_eq!(parser.position, 1);
}

#[test]
fn parse_nodes_stops_in_front_of_a_closing_tag() {
    let mut parser = at("<a> x <b></b> y </a>", 3);
    let nodes = parser.parse_nodes().unwrap();
    assert_eq!(nodes.len(), 3);
    assert!(matches!(&nodes[0].node_type, NodeType::Text(content) if content == "x "));
    assert!(matches!(&nodes[1].node_type, NodeType::Element(data) if data.tag_name == "b"));
    assert!(matches!(&nodes[2].node_type, NodeType::Text(content) if content == "y "));
    assert_eq!(parser.position, 16);
    assert!(parser.starts_with("</a>"));
}

#[test]
fn parse_nodes_of_nothing() {
    let mut parser = at("   ", 0);
    let nodes = parser.parse_nodes().unwrap();
    assert_eq!(nodes.len(), 0);
    assert_eq!(parser.position, 3);
}

#[test]
fn text_node_has_no_children() {
    let node = Node::text("some text".to_string());
    assert!(matches!(&node.node_type, NodeType::Text(content) if content == "some text"));
    assert_eq!(node.children.len(), 0);
}

#[test]
fn element_node_holds_what_it_is_given() {
    let mut attrs = AttrMap::new();
    attrs.insert("id".to_string(), "main".to_string());
    let children = vec![Node::text("a".to_string()), Node::text("b".to_string())];
    let node = Node::elem("div".to_string(), attrs, children);
    match &node.node_type {
        NodeType::Element(data) => {
            assert_eq!(data.tag_name, "div");
            assert_eq!(data.attrs.get("id").map(|v| v.as_str()), Some("main"));
            assert_eq!(data.attrs.len(), 1);
        }
        NodeType::Text(_) => panic!("an element was built"),
    }
    assert_eq!(node.children.len(), 2);
    assert!(matches!(&node.children[1].node_type, NodeType::Text(content) if content == "b"));
}

#[test]
fn attr_map_insert_get_and_len() {
    let mut attrs = AttrMap::new();
    assert_eq!(attrs.len(), 0);
    assert_eq!(attrs.get("a"), None);
    attrs.insert("a".to_string(), "1".to_string());
    attrs.insert("b".to_string(), "2".to_string());
    assert_eq!(attrs.len(), 2);
    assert_eq!(attrs.get("a"), Some(&"1".to_string()));
    assert_eq!(attrs.get("b"), Some(&"2".to_string()));
    assert_eq!(attrs.get("ab"), None);
    assert_eq!(attrs.get(""), None);
    attrs.insert("a".to_string(), "3".to_string());
    assert_eq!(attrs.len(), 2);
    assert_eq!(attrs.get("a"), Some(&"3".to_string()));
    assert_eq!(attrs.get("b"), Some(&"2".to_string()));
}

#[test]
fn attr_map_entries_hold_each_name_once() {
    let mut attrs = AttrMap::new();
    attrs.insert("a".to_string(), "1".to_string());
    attrs.insert("b".to_string(), "2".to_string());
    attrs.insert("a".to_string(), "3".to_string());
    let mut entries: Vec<(String, String)> =
        attrs.entries().iter().map(|(k, v)| (k.clone(), v.clone())).collect();
    entries.sort();
    assert_eq!(
        entries,
        vec![("a".to_string(), "3".to_string()), ("b".to_string(), "2".to_string())]
    );
}
