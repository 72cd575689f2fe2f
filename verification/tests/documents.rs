use browser_engine::{parse, Node, NodeType, ParseError};

fn tag(node: &Node) -> &str {
    match &node.node_type {
        NodeType::Element(data) => data.tag_name.as_str(),
        NodeType::Text(_) => panic!("a text node has no tag"),
    }
}

fn content(node: &Node) -> &str {
    match &node.node_type {
        NodeType::Text(content) => content.as_str(),
        NodeType::Element(_) => panic!("an element has no content"),
    }
}

fn attr<'a>(node: &'a Node, name: &str) -> Option<&'a str> {
    match &node.node_type {
        NodeType::Element(data) => data.attrs.get(name).map(|value| value.as_str()),
        NodeType::Text(_) => panic!("a text node has no attributes"),
    }
}

fn attr_count(node: &Node) -> usize {
    match &node.node_type {
        NodeType::Element(data) => data.attrs.len(),
        NodeType::Text(_) => panic!("a text node has no attributes"),
    }
}

fn parsed(source: &str) -> Node {
    parse(source.to_string()).unwrap()
}

fn failure(source: &str) -> ParseError {
    parse(source.to_string()).unwrap_err()
}

#[test]
fn single_element_is_the_root() {
    let root = parsed("<div></div>");
    assert_eq!(tag(&root), "div");
    assert_eq!(root.children.len(), 0);
    assert_eq!(attr_count(&root), 0);
}

#[test]
fn single_element_named_html_is_not_wrapped() {
    let root = parsed("<html><p></p></html>");
    assert_eq!(tag(&root), "html");
    assert_eq!(root.children.len(), 1);
    assert_eq!(tag(&root.children[0]), "p");
}

#[test]
fn single_text_is_the_root() {
    let root = parsed("hello world");
    assert_eq!(content(&root), "hello world");
    assert_eq!(root.children.len(), 0);
}

#[test]
fn two_top_level_elements_are_wrapped() {
    let root = parsed("<a></a><b></b>");
    assert_eq!(tag(&root), "html");
    assert_eq!(attr_count(&root), 0);
    assert_eq!(root.children.len(), 2);
    assert_eq!(tag(&root.children[0]), "a");
    assert_eq!(tag(&root.children[1]), "b");
}

#[test]
fn text_and_elements_at_top_level_keep_their_order() {
    let root = parsed("one<a></a>two<b></b>");
    assert_eq!(tag(&root), "html");
    assert_eq!(root.children.len(), 4);
    assert_eq!(content(&root.children[0]), "one");
    assert_eq!(tag(&root.children[1]), "a");
    assert_eq!(content(&root.children[2]), "two");
    assert_eq!(tag(&root.children[3]), "b");
}

#[test]
fn empty_input_gives_an_empty_html_element() {
    let root = parsed("");
    assert_eq!(tag(&root), "html");
    assert_eq!(attr_count(&root), 0);
    assert_eq!(root.children.len(), 0);
}

#[test]
fn blank_input_gives_an_empty_html_element() {
    let root = parsed(" \n\t ");
    assert_eq!(tag(&root), "html");
    assert_eq!(root.children.len(), 0);
}

#[test]
fn attributes_in_both_quote_styles() {
    let root = parsed("<a x=\"1\" y='two'></a>");
    assert_eq!(tag(&root), "a");
    assert_eq!(attr_count(&root), 2);
    assert_eq!(attr(&root, "x"), Some("1"));
    assert_eq!(attr(&root, "y"), Some("two"));
    assert_eq!(attr(&root, "z"), None);
}

#[test]
fn later_duplicate_attribute_overwrites() {
    let root = parsed("<a x=\"1\" y='two' x=\"2\"></a>");
    assert_eq!(attr_count(&root), 2);
    assert_eq!(attr(&root, "x"), Some("2"));
    assert_eq!(attr(&root, "y"), Some("two"));
}

#[test]
fn attributes_need_no_space_between_them() {
    let root = parsed("<a x='1'y='2'></a>");
    assert_eq!(attr_count(&root), 2);
    assert_eq!(attr(&root, "x"), Some("1"));
    assert_eq!(attr(&root, "y"), Some("2"));
}

#[test]
fn attribute_value_may_hold_the_other_quote() {
    let root = parsed("<a x=\"it's\" y='say \"hi\"'></a>");
    assert_eq!(attr(&root, "x"), Some("it's"));
    assert_eq!(attr(&root, "y"), Some("say \"hi\""));
}

#[test]
fn attribute_value_may_be_empty_and_hold_spaces() {
    let root = parsed("<a x='' y=' a > b '></a>");
    assert_eq!(attr(&root, "x"), Some(""));
    assert_eq!(attr(&root, "y"), Some(" a > b "));
}

#[test]
fn space_before_the_end_of_the_opening_tag() {
    let root = parsed("<a x='1'  ></a>");
    assert_eq!(tag(&root), "a");
    assert_eq!(attr(&root, "x"), Some("1"));
}

#[test]
fn nested_elements() {
    let root = parsed("<a><b>hi</b></a>");
    assert_eq!(tag(&root), "a");
    assert_eq!(root.children.len(), 1);
    let b = &root.children[0];
    assert_eq!(tag(b), "b");
    assert_eq!(b.children.len(), 1);
    assert_eq!(content(&b.children[0]), "hi");
    assert_eq!(b.children[0].children.len(), 0);
}

#[test]
fn deeper_nesting_with_siblings() {
    let root = parsed("<ul><li>one</li><li>two<b>!</b></li></ul>");
    assert_eq!(tag(&root), "ul");
    assert_eq!(root.children.len(), 2);
    assert_eq!(content(&root.children[0].children[0]), "one");
    let second = &root.children[1];
    assert_eq!(second.children.len(), 2);
    assert_eq!(content(&second.children[0]), "two");
    assert_eq!(tag(&second.children[1]), "b");
    assert_eq!(content(&second.children[1].children[0]), "!");
}

#[test]
fn whitespace_between_siblings_is_dropped() {
    let root = parsed("<a>\n  <b></b>\n  <c></c>\n</a>");
    assert_eq!(tag(&root), "a");
    assert_eq!(root.children.len(), 2);
    assert_eq!(tag(&root.children[0]), "b");
    assert_eq!(tag(&root.children[1]), "c");
}

#[test]
fn whitespace_around_the_document_is_dropped() {
    let root = parsed("  \n<a></a>\n  ");
    assert_eq!(tag(&root), "a");
    assert_eq!(root.children.len(), 0);
}

#[test]
fn whitespace_inside_a_text_is_kept() {
    let root = parsed("<p>  hello   big world  </p>");
    assert_eq!(root.children.len(), 1);
    assert_eq!(content(&root.children[0]), "hello   big world  ");
}

#[test]
fn unicode_whitespace_between_siblings_is_dropped() {
    let root = parsed("<a>\u{a0}\u{2003}<b></b>\u{3000}</a>");
    assert_eq!(root.children.len(), 1);
    assert_eq!(tag(&root.children[0]), "b");
}

#[test]
fn text_with_characters_of_several_bytes() {
    let root = parsed("<p>héllo → 世界 🎉</p>");
    assert_eq!(tag(&root), "p");
    assert_eq!(content(&root.children[0]), "héllo → 世界 🎉");
}

#[test]
fn attribute_value_with_characters_of_several_bytes() {
    let root = parsed("<p title='naïve ☃'>x</p>");
    assert_eq!(attr(&root, "title"), Some("naïve ☃"));
    assert_eq!(content(&root.children[0]), "x");
}

#[test]
fn tag_names_keep_their_case() {
    let root = parsed("<Div1></Div1>");
    assert_eq!(tag(&root), "Div1");
    assert_eq!(failure("<Div></div>"), ParseError::TagMismatch);
}

#[test]
fn empty_names_are_read() {
    let root = parsed("<>x</>");
    assert_eq!(tag(&root), "");
    assert_eq!(content(&root.children[0]), "x");
    let root = parsed("<a ='v'></a>");
    assert_eq!(attr(&root, ""), Some("v"));
}

#[test]
fn parsing_stops_at_a_closing_tag_without_an_opening_one() {
    let root = parsed("a</b>");
    assert_eq!(content(&root), "a");
    let root = parsed("</b>");
    assert_eq!(tag(&root), "html");
    assert_eq!(root.children.len(), 0);
}

#[test]
fn mismatched_tags_fail() {
    assert_eq!(failure("<a></b>"), ParseError::TagMismatch);
    assert_eq!(failure("<ab></a>"), ParseError::TagMismatch);
    assert_eq!(failure("<a><b></a></b>"), ParseError::TagMismatch);
    assert_eq!(failure("<ab></a>"), ParseError::TagMismatch);
    assert_eq!(failure("<ab></ax>"), ParseError::TagMismatch);
}

#[test]
fn mismatched_quotes_fail() {
    assert_eq!(failure("<a x=\"1'>"), ParseError::QuoteMismatch);
    assert_eq!(failure("<a x='1\"></a>"), ParseError::QuoteMismatch);
}

#[test]
fn unquoted_attribute_value_fails() {
    assert_eq!(failure("<a x=1></a>"), ParseError::QuoteMismatch);
}

#[test]
fn input_that_ends_too_early_fails() {
    assert_eq!(failure("<"), ParseError::UnexpectedEof);
    assert_eq!(failure("<a"), ParseError::UnexpectedEof);
    assert_eq!(failure("<a "), ParseError::UnexpectedEof);
    assert_eq!(failure("<a x"), ParseError::UnexpectedEof);
    assert_eq!(failure("<a x="), ParseError::UnexpectedEof);
    assert_eq!(failure("<a x='1"), ParseError::UnexpectedEof);
    assert_eq!(failure("<a>"), ParseError::UnexpectedEof);
    assert_eq!(failure("<a>text"), ParseError::UnexpectedEof);
    assert_eq!(failure("<a><b></b>"), ParseError::UnexpectedEof);
    assert_eq!(failure("<a></a"), ParseError::UnexpectedEof);
    assert_eq!(failure("<a></"), ParseError::UnexpectedEof);
    assert_eq!(failure("<abc></ab"), ParseError::UnexpectedEof);
}

#[test]
fn wrong_literal_fails_with_its_place() {
    assert_eq!(
        failure("<a x'1'></a>"),
        ParseError::LiteralMismatch { expected: "=".to_string(), position: 4 }
    );
    assert_eq!(
        failure("<a></ab>"),
        ParseError::LiteralMismatch { expected: ">".to_string(), position: 6 }
    );
    assert_eq!(
        failure("<a></a >"),
        ParseError::LiteralMismatch { expected: ">".to_string(), position: 6 }
    );
}

#[test]
fn place_of_a_wrong_literal_counts_bytes() {
    assert_eq!(
        failure("é→<a x+"),
        ParseError::LiteralMismatch { expected: "=".to_string(), position: 9 }
    );
}

#[test]
fn no_tree_beside_a_failure() {
    assert!(parse("<a><b>fine</b></c>".to_string()).is_err());
    assert!(parse("<a>fine</a><b>".to_string()).is_err());
}
