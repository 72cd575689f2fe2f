//! The parser: a cursor over a source string, and one method for each
//! production of the grammar.

use vstd::prelude::*;
use vstd::std_specs::iter::IteratorSpec;
use vstd::string::*;
use vstd::utf8::*;
use crate::attrs::AttrMap;
use crate::dom::{views, ElementDataView, Node, NodeTypeView, NodeView};
use crate::error::{Failure, ParseError};
use crate::grammar;
use crate::grammar::{
    chars_other_than, is_name_char, is_quote, lemma_advance_twice, lemma_run_len_is, name_chars,
    white_space_chars, Cursor,
};
use crate::text::{
    byte_len, char_width, first_char, is_whitespace, lemma_advance, slice_between, str_starts_with,
    tail_from, utf8_len, white_space,
};

verus! {

/// A source string with a read position in it, a byte offset.
#[derive(Debug)]
pub struct Parser {
    pub position: usize,
    pub input: String,
}

impl View for Parser {
    type V = Cursor;

    /// What is still to be read, and where it begins.
    open spec fn view(&self) -> Cursor {
        Cursor { rest: self.remaining(), pos: self.position as nat }
    }
}

impl Parser {
    /// The bytes of the input.
    pub open spec fn bytes(&self) -> Seq<u8> {
        encode_utf8(self.input@)
    }

    /// The position is one that reading reaches: the start of the input, or
    /// another place in it between two characters, or its end.
    pub open spec fn wf(&self) -> bool {
        self.position == 0 || is_char_boundary(self.bytes(), self.position as int)
    }

    /// The characters from the position on.
    pub open spec fn remaining(&self) -> Seq<char> {
        decode_utf8(self.bytes().subrange(self.position as int, self.bytes().len() as int))
    }

    /// The characters in front of the position.
    pub open spec fn consumed(&self) -> Seq<char> {
        decode_utf8(self.bytes().subrange(0, self.position as int))
    }

    /// This parser is what `before` has become by reading on: the same
    /// input, with the position not in front of where it was.
    pub open spec fn follows(&self, before: &Parser) -> bool {
        &&& self.wf()
        &&& self.input == before.input
        &&& before.position <= self.position
    }

    /// The bytes of the input are an encoding, and the position is a
    /// character boundary in them.
    proof fn lemma_boundary(&self)
        requires
            self.wf(),
        ensures
            valid_utf8(self.bytes()),
            is_char_boundary(self.bytes(), self.position as int),
            self.position <= self.bytes().len(),
    {
        encode_utf8_valid_utf8(self.input@);
    }

    /// The position splits the input into what was read and what remains,
    /// and counts the bytes of what was read.
    pub proof fn lemma_position(&self)
        requires
            self.wf(),
        ensures
            self.input@ == self.consumed() + self.remaining(),
            self.position == utf8_len(self.consumed()),
            self.position + utf8_len(self.remaining()) == utf8_len(self.input@),
    {
        let bytes = self.bytes();
        let p = self.position as int;
        self.lemma_boundary();
        encode_utf8_decode_utf8(self.input@);
        decode_utf8_split(bytes, p);
        valid_utf8_split(bytes, p);
        decode_utf8_encode_utf8(bytes.subrange(0, p));
        decode_utf8_encode_utf8(bytes.subrange(p, bytes.len() as int));
    }

    /// A parser in front of `input`.
    pub fn new(input: String) -> (parser: Parser)
        ensures
            parser.wf(),
            parser.position == 0,
            parser.input == input,
            parser@ == Cursor::start(input@),
    {
        let parser = Parser { position: 0, input };
        proof {
            let bytes = parser.bytes();
            encode_utf8_decode_utf8(parser.input@);
            assert(bytes.subrange(0, bytes.len() as int) =~= bytes);
        }
        parser
    }

    /// Whether the input is read to its end.
    pub fn eof(&self) -> (b: bool)
        ensures
            b == (self.position >= utf8_len(self.input@)),
            self.wf() ==> b == (self@.rest.len() == 0),
    {
        proof {
            if self.wf() {
                self.lemma_position();
                if self@.rest.len() == 0 {
                    assert(encode_utf8(self@.rest).len() == 0);
                } else {
                    encode_utf8_first_scalar(self@.rest);
                }
            }
        }
        self.position >= byte_len(self.input.as_str())
    }

    /// The next character, which is not consumed.
    pub fn next_char(&self) -> (r: Result<char, ParseError>)
        requires
            self.wf(),
        ensures
            match grammar::peek(self@) {
                Ok(c) => r == Ok::<char, ParseError>(c),
                Err(e) => r is Err && r->Err_0@ == e,
            },
    {
        proof {
            self.lemma_boundary();
        }
        match first_char(tail_from(self.input.as_str(), self.position)) {
            Some(c) => Ok(c),
            None => Err(ParseError::UnexpectedEof),
        }
    }

    /// Whether the input goes on with `s`.
    pub fn starts_with(&self, s: &str) -> (b: bool)
        requires
            self.wf(),
        ensures
            b == s@.is_prefix_of(self@.rest),
    {
        proof {
            self.lemma_boundary();
        }
        str_starts_with(tail_from(self.input.as_str(), self.position), s)
    }

    /// Moves the position over the next `k` characters, which take `n` bytes.
    fn advance_by(&mut self, n: usize, Ghost(k): Ghost<nat>)
        requires
            old(self).wf(),
            k <= old(self)@.rest.len(),
            n == utf8_len(old(self)@.rest.take(k as int)),
        ensures
            final(self).follows(old(self)),
            final(self)@ == old(self)@.advance(k),
            final(self).position == old(self).position + n,
    {
        let total = byte_len(self.input.as_str());
        proof {
            self.lemma_boundary();
            lemma_advance(self.bytes(), self.position as int, k as int);
        }
        assert(self.position + n <= total);
        self.position = self.position + n;
    }

    /// Consumes the literal `s`, or fails without consuming anything.
    pub fn expect(&mut self, s: &str) -> (r: Result<(), ParseError>)
        requires
            old(self).wf(),
        ensures
            final(self).follows(old(self)),
            match grammar::expect(old(self)@, s@) {
                Ok(behind) => r is Ok && final(self)@ == behind,
                Err(e) => r is Err && r->Err_0@ == e && final(self).position == old(self).position,
            },
    {
        proof {
            self.lemma_boundary();
        }
        let rest = tail_from(self.input.as_str(), self.position);
        if str_starts_with(rest, s) {
            proof {
                assert(self@.rest.take(s@.len() as int) =~= s@);
            }
            self.advance_by(byte_len(s), Ghost(s@.len()));
            Ok(())
        } else if str_starts_with(s, rest) {
            Err(ParseError::UnexpectedEof)
        } else {
            Err(ParseError::LiteralMismatch { expected: s.to_owned(), position: self.position })
        }
    }

    /// Consumes the next character.
    pub fn consume_char(&mut self) -> (r: Result<char, ParseError>)
        requires
            old(self).wf(),
        ensures
            final(self).follows(old(self)),
            match grammar::consume_char(old(self)@) {
                Ok((c, behind)) => r == Ok::<char, ParseError>(c) && final(self)@ == behind,
                Err(e) => r is Err && r->Err_0@ == e && final(self).position == old(self).position,
            },
    {
        match self.next_char() {
            Ok(c) => {
                proof {
                    assert(self@.rest.take(1) =~= seq![c]);
                }
                self.advance_by(char_width(c), Ghost(1));
                Ok(c)
            },
            Err(e) => Err(e),
        }
    }

    /// Consumes characters as long as `test` accepts them, and gives them
    /// back. It stops in front of the first character that `test` refuses, or
    /// at the end of input.
    pub fn consume_while(&mut self, test: impl Fn(char) -> bool) -> (run: String)
        requires
            old(self).wf(),
            forall|i: int|
                0 <= i < old(self)@.rest.len() ==> call_requires(
                    test,
                    (#[trigger] old(self)@.rest[i],),
                ),
        ensures
            final(self).follows(old(self)),
            run@.len() <= old(self)@.rest.len(),
            run@ == old(self)@.rest.take(run@.len() as int),
            final(self)@ == old(self)@.advance(run@.len()),
            forall|i: int| 0 <= i < run@.len() ==> call_ensures(test, (#[trigger] run@[i],), true),
            run@.len() < old(self)@.rest.len() ==> call_ensures(
                test,
                (old(self)@.rest[run@.len() as int],),
                false,
            ),
    {
        let start = self.position;
        let ghost from = self@;
        let ghost mut k: nat = 0;
        proof {
            self.lemma_boundary();
            assert(from.rest.take(0) =~= Seq::<char>::empty());
            assert(from.rest.skip(0) =~= from.rest);
        }
        loop
            invariant
                self.follows(old(self)),
                from == old(self)@,
                start == old(self).position,
                is_char_boundary(self.bytes(), start as int),
                k <= from.rest.len(),
                self@ == from.advance(k),
                forall|i: int| 0 <= i < from.rest.len() ==> call_requires(test, (#[trigger] from.rest[i],)),
                forall|i: int| 0 <= i < k ==> call_ensures(test, (#[trigger] from.rest[i],), true),
            ensures
                k < from.rest.len() ==> call_ensures(test, (from.rest[k as int],), false),
            decreases from.rest.len() - k,
        {
            match self.next_char() {
                Err(_) => {
                    break ;
                },
                Ok(c) => {
                    assert(c == from.rest[k as int]);
                    if !test(c) {
                        break ;
                    }
                    proof {
                        assert(self@.rest.take(1) =~= seq![c]);
                        lemma_advance_twice(from, k, 1);
                    }
                    self.advance_by(char_width(c), Ghost(1));
                    proof {
                        k = k + 1;
                    }
                },
            }
        }
        proof {
            self.lemma_boundary();
            lemma_advance(self.bytes(), start as int, k as int);
            encode_utf8_decode_utf8(from.rest.take(k as int));
        }
        slice_between(self.input.as_str(), start, self.position).to_owned()
    }

    /// Skips white space.
    pub fn consume_whitespace(&mut self)
        requires
            old(self).wf(),
        ensures
            final(self).follows(old(self)),
            final(self)@ == grammar::skip_whitespace(old(self)@),
    {
        let run = self.consume_while(
            |c: char| -> (b: bool)
                ensures
                    b == white_space(c)
                { is_whitespace(c) },
        );
        proof {
            let rest = old(self)@.rest;
            assert forall|i: int| 0 <= i < run@.len() implies white_space_chars()(#[trigger] rest[i]) by {
                assert(rest[i] == run@[i]);
            }
            lemma_run_len_is(rest, white_space_chars(), run@.len());
        }
    }

    /// Reads a tag name or an attribute name: a run of ASCII letters and
    /// digits, which may be empty.
    pub fn parse_name(&mut self) -> (name: String)
        requires
            old(self).wf(),
        ensures
            final(self).follows(old(self)),
            (name@, final(self)@) == grammar::name(old(self)@),
    {
        let name = self.consume_while(
            |c: char| -> (b: bool)
                ensures
                    b == is_name_char(c)
                { ('a' <= c && c <= 'z') || ('A' <= c && c <= 'Z') || ('0' <= c && c <= '9') },
        );
        proof {
            let rest = old(self)@.rest;
            assert forall|i: int| 0 <= i < name@.len() implies name_chars()(#[trigger] rest[i]) by {
                assert(rest[i] == name@[i]);
            }
            lemma_run_len_is(rest, name_chars(), name@.len());
        }
        name
    }

    /// Reads a text node: everything up to the next `<` or the end of input.
    pub fn parse_text(&mut self) -> (node: Node)
        requires
            old(self).wf(),
        ensures
            final(self).follows(old(self)),
            (node@, final(self)@) == grammar::text(old(self)@),
    {
        let content = self.consume_while(
            |c: char| -> (b: bool)
                ensures
                    b == (c != '<')
                { c != '<' },
        );
        proof {
            let rest = old(self)@.rest;
            assert forall|i: int| 0 <= i < content@.len() implies chars_other_than('<')(
                #[trigger] rest[i],
            ) by {
                assert(rest[i] == content@[i]);
            }
            lemma_run_len_is(rest, chars_other_than('<'), content@.len());
        }
        Node::text(content)
    }

    /// Reads a quoted attribute value and gives what stands between the
    /// quotes.
    pub fn parse_attr_value(&mut self) -> (r: Result<String, ParseError>)
        requires
            old(self).wf(),
        ensures
            final(self).follows(old(self)),
            match grammar::attr_value(old(self)@) {
                Ok((value, behind)) => r is Ok && r->Ok_0@ == value && final(self)@ == behind,
                Err(e) => r is Err && r->Err_0@ == e,
            },
    {
        let open_quote = match self.consume_char() {
            Ok(c) => c,
            Err(e) => {
                return Err(e);
            },
        };
        if open_quote != '"' && open_quote != '\'' {
            return Err(ParseError::QuoteMismatch);
        }
        let ghost inner = self@;
        let value = self.consume_while(
            |c: char| -> (b: bool)
                ensures
                    b == (c != open_quote)
                { c != open_quote },
        );
        proof {
            assert forall|i: int| 0 <= i < value@.len() implies chars_other_than(open_quote)(
                #[trigger] inner.rest[i],
            ) by {
                assert(inner.rest[i] == value@[i]);
            }
            lemma_run_len_is(inner.rest, chars_other_than(open_quote), value@.len());
        }
        match self.consume_char() {
            Ok(_) => {
                proof {
                    lemma_advance_twice(inner, value@.len(), 1);
                }
                Ok(value)
            },
            Err(_) => {
                proof {
                    assert(value@ =~= inner.rest);
                }
                if has_quote(value.as_str()) {
                    Err(ParseError::QuoteMismatch)
                } else {
                    Err(ParseError::UnexpectedEof)
                }
            },
        }
    }

    /// Reads one attribute: a name, `=`, and a quoted value.
    pub fn parse_attr(&mut self) -> (r: Result<(String, String), ParseError>)
        requires
            old(self).wf(),
        ensures
            final(self).follows(old(self)),
            match grammar::attr(old(self)@) {
                Ok(((key, value), behind)) => r is Ok && r->Ok_0.0@ == key && r->Ok_0.1@ == value
                    && final(self)@ == behind,
                Err(e) => r is Err && r->Err_0@ == e,
            },
    {
        let name = self.parse_name();
        proof {
            reveal_strlit("=");
            assert("="@ =~= seq!['=']);
        }
        match self.expect("=") {
            Ok(()) => {},
            Err(e) => {
                return Err(e);
            },
        }
        match self.parse_attr_value() {
            Ok(value) => Ok((name, value)),
            Err(e) => Err(e),
        }
    }

    /// Reads attributes up to the `>` that ends the opening tag, which is
    /// left unread. Of two attributes with one name the later one stays.
    pub fn parse_attributes(&mut self) -> (r: Result<AttrMap, ParseError>)
        requires
            old(self).wf(),
        ensures
            final(self).follows(old(self)),
            match grammar::attributes(old(self)@) {
                Ok((attrs, behind)) => r is Ok && r->Ok_0@ == attrs && final(self)@ == behind,
                Err(e) => r is Err && r->Err_0@ == e,
            },
    {
        let mut attrs = AttrMap::new();
        let ghost whole = grammar::attributes(old(self)@);
        proof {
            if let Ok((others, end)) = whole {
                assert(attrs@.union_prefer_right(others) =~= others);
            }
        }
        loop
            invariant
                self.follows(old(self)),
                whole == grammar::attributes(old(self)@),
                match grammar::attributes(self@) {
                    Ok((others, end)) => whole == Ok::<
                        (Map<Seq<char>, Seq<char>>, Cursor),
                        Failure,
                    >((attrs@.union_prefer_right(others), end)),
                    Err(e) => whole == Err::<(Map<Seq<char>, Seq<char>>, Cursor), Failure>(e),
                },
            ensures
                self.follows(old(self)),
                whole == Ok::<(Map<Seq<char>, Seq<char>>, Cursor), Failure>((attrs@, self@)),
            decreases self@.rest.len(),
        {
            let ghost head = self@;
            proof {
                grammar::lemma_attributes_skip_whitespace(head);
                grammar::lemma_skip_whitespace_once(head);
            }
            self.consume_whitespace();
            let ghost at = self@;
            match self.next_char() {
                Err(e) => {
                    return Err(e);
                },
                Ok(c) => {
                    if c == '>' {
                        proof {
                            assert(attrs@.union_prefer_right(Map::empty()) =~= attrs@);
                        }
                        break ;
                    }
                },
            }
            proof {
                grammar::lemma_attr_takes_input(at);
            }
            match self.parse_attr() {
                Err(e) => {
                    return Err(e);
                },
                Ok((name, value)) => {
                    proof {
                        if let Ok((others, end)) = grammar::attributes(self@) {
                            assert(attrs@.insert(name@, value@).union_prefer_right(others)
                                =~= attrs@.union_prefer_right(
                                map![name@ => value@].union_prefer_right(others),
                            ));
                        }
                    }
                    attrs.insert(name, value);
                },
            }
        }
        Ok(attrs)
    }

    /// Reads an element: its opening tag with attributes, its children, and
    /// a closing tag that repeats the opening tag's name.
    pub fn parse_element(&mut self) -> (r: Result<Node, ParseError>)
        requires
            old(self).wf(),
        ensures
            final(self).follows(old(self)),
            match grammar::element(old(self)@) {
                Ok((node, behind)) => r is Ok && r->Ok_0@ == node && final(self)@ == behind,
                Err(e) => r is Err && r->Err_0@ == e,
            },
        decreases old(self)@.rest.len(), 0int,
    {
        proof {
            reveal_strlit("<");
            reveal_strlit(">");
            reveal_strlit("</");
            assert("<"@ =~= seq!['<']);
            assert(">"@ =~= seq!['>']);
            assert("</"@ =~= seq!['<', '/']);
        }
        match self.expect("<") {
            Ok(()) => {},
            Err(e) => {
                return Err(e);
            },
        }
        let ghost behind_open = self@;
        let tag_name = self.parse_name();
        let ghost behind_tag = self@;
        let attrs = match self.parse_attributes() {
            Ok(attrs) => attrs,
            Err(e) => {
                return Err(e);
            },
        };
        match self.expect(">") {
            Ok(()) => {},
            Err(e) => {
                return Err(e);
            },
        }
        proof {
            grammar::lemma_run_len(behind_open.rest, name_chars());
            grammar::lemma_attributes_lead_on(behind_tag);
        }
        let children = match self.parse_nodes() {
            Ok(children) => children,
            Err(e) => {
                return Err(e);
            },
        };
        match self.expect("</") {
            Ok(()) => {},
            Err(e) => {
                return Err(e);
            },
        }
        match self.expect(tag_name.as_str()) {
            Ok(()) => {},
            Err(ParseError::UnexpectedEof) => {
                return Err(ParseError::UnexpectedEof);
            },
            Err(_) => {
                return Err(ParseError::TagMismatch);
            },
        }
        match self.expect(">") {
            Ok(()) => {},
            Err(e) => {
                return Err(e);
            },
        }
        Ok(Node::elem(tag_name, attrs, children))
    }

    /// Reads one node: an element where the input goes on with `<`, else a
    /// text.
    pub fn parse_node(&mut self) -> (r: Result<Node, ParseError>)
        requires
            old(self).wf(),
        ensures
            final(self).follows(old(self)),
            match grammar::node(old(self)@) {
                Ok((node, behind)) => r is Ok && r->Ok_0@ == node && final(self)@ == behind,
                Err(e) => r is Err && r->Err_0@ == e,
            },
        decreases old(self)@.rest.len(), 1int,
    {
        proof {
            reveal_strlit("<");
            assert("<"@ =~= seq!['<']);
        }
        if self.starts_with("<") {
            self.parse_element()
        } else {
            Ok(self.parse_text())
        }
    }

    /// Reads sibling nodes up to the end of input or to a `</`, which is
    /// left unread. White space in front of a node is dropped.
    pub fn parse_nodes(&mut self) -> (r: Result<Vec<Node>, ParseError>)
        requires
            old(self).wf(),
        ensures
            final(self).follows(old(self)),
            match grammar::nodes(old(self)@) {
                Ok((nodes, behind)) => r is Ok && views(r->Ok_0@) == nodes && final(self)@ == behind,
                Err(e) => r is Err && r->Err_0@ == e,
            },
        decreases old(self)@.rest.len(), 2int,
    {
        let mut nodes: Vec<Node> = Vec::new();
        let ghost whole = grammar::nodes(old(self)@);
        proof {
            reveal_strlit("</");
            assert("</"@ =~= seq!['<', '/']);
            if let Ok((others, end)) = whole {
                assert(views(nodes@) + others =~= others);
            }
        }
        loop
            invariant
                self.follows(old(self)),
                self@.rest.len() <= old(self)@.rest.len(),
                whole == grammar::nodes(old(self)@),
                "</"@ == seq!['<', '/'],
                match grammar::nodes(self@) {
                    Ok((others, end)) => whole == Ok::<(Seq<NodeView>, Cursor), Failure>(
                        (views(nodes@) + others, end),
                    ),
                    Err(e) => whole == Err::<(Seq<NodeView>, Cursor), Failure>(e),
                },
            ensures
                self.follows(old(self)),
                whole == Ok::<(Seq<NodeView>, Cursor), Failure>((views(nodes@), self@)),
            decreases self@.rest.len(),
        {
            let ghost head = self@;
            proof {
                grammar::lemma_nodes_skip_whitespace(head);
                grammar::lemma_skip_whitespace_once(head);
            }
            self.consume_whitespace();
            let ghost at = self@;
            if self.eof() || self.starts_with("</") {
                proof {
                    assert(views(nodes@) + Seq::<NodeView>::empty() =~= views(nodes@));
                }
                break ;
            }
            proof {
                grammar::lemma_node_takes_input(at);
            }
            match self.parse_node() {
                Err(e) => {
                    return Err(e);
                },
                Ok(node) => {
                    proof {
                        assert(views(nodes@.push(node)) =~= views(nodes@).push(node@));
                        if let Ok((others, end)) = grammar::nodes(self@) {
                            assert(views(nodes@).push(node@) + others =~= views(nodes@) + (seq![
                                node@,
                            ] + others));
                        }
                    }
                    nodes.push(node);
                },
            }
        }
        Ok(nodes)
    }
}

/// Whether a quote occurs in `s`.
fn has_quote(s: &str) -> (b: bool)
    ensures
        b == exists|i: int| 0 <= i < s@.len() && is_quote(#[trigger] s@[i]),
{
    let mut it = s.chars();
    let ghost mut n: int = 0;
    proof {
        assert(s@.skip(0) =~= s@);
    }
    loop
        invariant
            0 <= n <= s@.len(),
            it.remaining() == s@.skip(n),
            forall|i: int| 0 <= i < n ==> !is_quote(#[trigger] s@[i]),
        decreases s@.len() - n,
    {
        match it.next() {
            None => {
                return false;
            },
            Some(c) => {
                assert(c == s@[n]);
                if c == '"' || c == '\'' {
                    return true;
                }
                proof {
                    assert(s@.skip(n).drop_first() =~= s@.skip(n + 1));
                    n = n + 1;
                }
            },
        }
    }
}

/// Parses the document `source` and gives its root. Where the document has
/// exactly one top-level node, that node is the root; else the root is an
/// element `html` without attributes that holds the top-level nodes in
/// their order.
pub fn parse(source: String) -> (r: Result<Node, ParseError>)
    ensures
        match grammar::nodes(Cursor::start(source@)) {
            Ok((tops, _)) => {
                &&& r is Ok
                &&& r->Ok_0@ == grammar::root_of(tops)
                &&& tops.len() == 1 ==> r->Ok_0@ == tops[0]
                &&& tops.len() != 1 ==> r->Ok_0@ == (NodeView {
                    children: tops,
                    node_type: NodeTypeView::Element(
                        ElementDataView { tag_name: "html"@, attrs: Map::empty() },
                    ),
                })
            },
            Err(e) => r is Err && r->Err_0@ == e,
        },
        match grammar::document(source@) {
            Ok(root) => r is Ok && r->Ok_0@ == root,
            Err(e) => r is Err && r->Err_0@ == e,
        },
{
    let mut parser = Parser::new(source);
    let mut nodes = match parser.parse_nodes() {
        Ok(nodes) => nodes,
        Err(e) => {
            return Err(e);
        },
    };
    if nodes.len() == 1 {
        Ok(nodes.remove(0))
    } else {
        Ok(Node::elem("html".to_string(), AttrMap::new(), nodes))
    }
}

} // verus!
