//! The grammar of the markup, as functions on the text that is still to be
//! read. Each production takes a [`Cursor`] and gives what it reads together
//! with the cursor behind it, or the [`Failure`] that ends the parse.
//!
//! ```text
//! nodes      := (whitespace? node)*
//! node       := element | text
//! element    := '<' name attributes '>' nodes '</' name '>'
//! attributes := (whitespace? attr)* whitespace?
//! attr       := name '=' attrvalue
//! attrvalue  := '"' [^"]* '"' | "'" [^']* "'"
//! text       := [^<]*
//! name       := [A-Za-z0-9]*
//! ```

use vstd::prelude::*;
use crate::dom::{ElementDataView, NodeTypeView, NodeView};
use crate::error::Failure;
use crate::text::{lemma_encode_concat, utf8_len, white_space};

verus! {

/// A place in a source text: the characters that are still to be read, and
/// the byte offset at which they begin.
pub struct Cursor {
    pub rest: Seq<char>,
    pub pos: nat,
}

impl Cursor {
    /// The cursor in front of `source`.
    pub open spec fn start(source: Seq<char>) -> Cursor {
        Cursor { rest: source, pos: 0 }
    }

    /// The cursor behind the next `n` characters.
    pub open spec fn advance(self, n: nat) -> Cursor {
        Cursor {
            rest: self.rest.skip(n as int),
            pos: self.pos + utf8_len(self.rest.take(n as int)),
        }
    }

    /// Whether `later` is reached from this cursor by reading on.
    pub open spec fn leads_to(self, later: Cursor) -> bool {
        &&& later.rest.len() <= self.rest.len()
        &&& later == self.advance((self.rest.len() - later.rest.len()) as nat)
    }

    /// What is read on the way from this cursor to `later`.
    pub open spec fn read_until(self, later: Cursor) -> Seq<char> {
        self.rest.take(self.rest.len() - later.rest.len())
    }
}

/// Whether `c` may stand in a tag name or an attribute name.
pub open spec fn is_name_char(c: char) -> bool {
    ('a' <= c && c <= 'z') || ('A' <= c && c <= 'Z') || ('0' <= c && c <= '9')
}

/// Whether `c` is one of the two quotes that enclose an attribute value.
pub open spec fn is_quote(c: char) -> bool {
    c == '"' || c == '\''
}

/// The white space characters, as a predicate.
pub open spec fn white_space_chars() -> spec_fn(char) -> bool {
    |c: char| white_space(c)
}

/// The name characters, as a predicate.
pub open spec fn name_chars() -> spec_fn(char) -> bool {
    |c: char| is_name_char(c)
}

/// Every character but `stop`, as a predicate.
pub open spec fn chars_other_than(stop: char) -> spec_fn(char) -> bool {
    |c: char| c != stop
}

/// The length of the longest beginning of `s` in which every character
/// satisfies `p`.
pub open spec fn run_len(s: Seq<char>, p: spec_fn(char) -> bool) -> nat
    decreases s.len(),
{
    if s.len() > 0 && p(s[0]) {
        1 + run_len(s.drop_first(), p)
    } else {
        0
    }
}

/// Reads the longest run of characters that satisfy `p`.
pub open spec fn run(c: Cursor, p: spec_fn(char) -> bool) -> (Seq<char>, Cursor) {
    let n = run_len(c.rest, p);
    (c.rest.take(n as int), c.advance(n))
}

/// Looks at the next character.
pub open spec fn peek(c: Cursor) -> Result<char, Failure> {
    if c.rest.len() == 0 {
        Err(Failure::UnexpectedEof)
    } else {
        Ok(c.rest[0])
    }
}

/// Reads the next character.
pub open spec fn consume_char(c: Cursor) -> Result<(char, Cursor), Failure> {
    if c.rest.len() == 0 {
        Err(Failure::UnexpectedEof)
    } else {
        Ok((c.rest[0], c.advance(1)))
    }
}

/// Reads the literal `lit`. Where the input ends inside the literal the
/// failure is the end of input; where it goes on otherwise, a mismatch at the
/// cursor's offset.
pub open spec fn expect(c: Cursor, lit: Seq<char>) -> Result<Cursor, Failure> {
    if lit.is_prefix_of(c.rest) {
        Ok(c.advance(lit.len()))
    } else if c.rest.is_prefix_of(lit) {
        Err(Failure::UnexpectedEof)
    } else {
        Err(Failure::LiteralMismatch { expected: lit, position: c.pos })
    }
}

/// Steps over white space.
pub open spec fn skip_whitespace(c: Cursor) -> Cursor {
    run(c, white_space_chars()).1
}

/// Reads a name, which may be empty.
pub open spec fn name(c: Cursor) -> (Seq<char>, Cursor) {
    run(c, name_chars())
}

/// Reads a text node: everything up to the next `<` or the end of input.
pub open spec fn text(c: Cursor) -> (NodeView, Cursor) {
    let (content, behind) = run(c, chars_other_than('<'));
    (NodeView { children: Seq::empty(), node_type: NodeTypeView::Text(content) }, behind)
}

/// Reads a quoted attribute value and gives what stands between the quotes.
/// A value that does not begin with a quote is a quote mismatch. Where the
/// closing quote is missing, it is a quote mismatch if a quote of the other
/// kind follows, and the end of input if none does.
pub open spec fn attr_value(c: Cursor) -> Result<(Seq<char>, Cursor), Failure> {
    if c.rest.len() == 0 {
        Err(Failure::UnexpectedEof)
    } else if !is_quote(c.rest[0]) {
        Err(Failure::QuoteMismatch)
    } else {
        let inner = c.advance(1);
        let n = run_len(inner.rest, chars_other_than(c.rest[0]));
        if n < inner.rest.len() {
            Ok((inner.rest.take(n as int), inner.advance(n + 1)))
        } else if exists|i: int| 0 <= i < inner.rest.len() && is_quote(#[trigger] inner.rest[i]) {
            Err(Failure::QuoteMismatch)
        } else {
            Err(Failure::UnexpectedEof)
        }
    }
}

/// Reads one attribute: a name, `=`, and a quoted value.
pub open spec fn attr(c: Cursor) -> Result<((Seq<char>, Seq<char>), Cursor), Failure> {
    let (key, behind_key) = name(c);
    match expect(behind_key, seq!['=']) {
        Err(e) => Err(e),
        Ok(behind_sign) => match attr_value(behind_sign) {
            Err(e) => Err(e),
            Ok((value, behind)) => Ok(((key, value), behind)),
        },
    }
}

/// Reads attributes up to the `>` that ends the opening tag, which is left
/// unread. Of two attributes with one name the later one stays.
pub open spec fn attributes(c: Cursor) -> Result<(Map<Seq<char>, Seq<char>>, Cursor), Failure>
    decreases c.rest.len(),
    via attributes_decreases
{
    let at = skip_whitespace(c);
    if at.rest.len() == 0 {
        Err(Failure::UnexpectedEof)
    } else if at.rest[0] == '>' {
        Ok((Map::empty(), at))
    } else {
        match attr(at) {
            Err(e) => Err(e),
            Ok(((key, value), behind)) => match attributes(behind) {
                Err(e) => Err(e),
                Ok((others, end)) => Ok((map![key => value].union_prefer_right(others), end)),
            },
        }
    }
}

/// Reads an element: its opening tag with attributes, its children, and a
/// closing tag that repeats the opening tag's name. The name is read as a
/// literal: where the input goes on otherwise the tags do not match, and
/// where it ends inside the name the failure is the end of input.
pub open spec fn element(c: Cursor) -> Result<(NodeView, Cursor), Failure>
    decreases c.rest.len(), 0int,
    via element_decreases
{
    match expect(c, seq!['<']) {
        Err(e) => Err(e),
        Ok(behind_open) => {
            let (tag, behind_tag) = name(behind_open);
            match attributes(behind_tag) {
                Err(e) => Err(e),
                Ok((attrs, behind_attrs)) => match expect(behind_attrs, seq!['>']) {
                    Err(e) => Err(e),
                    Ok(inside) => match nodes(inside) {
                        Err(e) => Err(e),
                        Ok((children, behind_children)) => match expect(
                            behind_children,
                            seq!['<', '/'],
                        ) {
                            Err(e) => Err(e),
                            Ok(at_name) => match expect(at_name, tag) {
                                Err(Failure::UnexpectedEof) => Err(Failure::UnexpectedEof),
                                Err(_) => Err(Failure::TagMismatch),
                                Ok(behind_name) => match expect(behind_name, seq!['>']) {
                                    Err(e) => Err(e),
                                    Ok(behind) => Ok(
                                        (
                                            NodeView {
                                                children,
                                                node_type: NodeTypeView::Element(
                                                    ElementDataView { tag_name: tag, attrs },
                                                ),
                                            },
                                            behind,
                                        ),
                                    ),
                                },
                            },
                        },
                    },
                },
            }
        },
    }
}

/// Reads one node: an element where the input goes on with `<`, else a text.
pub open spec fn node(c: Cursor) -> Result<(NodeView, Cursor), Failure>
    decreases c.rest.len(), 1int,
{
    if seq!['<'].is_prefix_of(c.rest) {
        element(c)
    } else {
        Ok(text(c))
    }
}

/// Reads sibling nodes up to the end of input or to a `</`, which is left
/// unread. White space in front of a node is dropped.
///
/// A node that stands here takes at least one character
/// ([`lemma_node_takes_input`]); the test for it makes the definition
/// well-founded and never fails.
pub open spec fn nodes(c: Cursor) -> Result<(Seq<NodeView>, Cursor), Failure>
    decreases c.rest.len(), 2int,
    via nodes_decreases
{
    let at = skip_whitespace(c);
    if at.rest.len() == 0 || seq!['<', '/'].is_prefix_of(at.rest) {
        Ok((Seq::empty(), at))
    } else {
        match node(at) {
            Err(e) => Err(e),
            Ok((first, behind)) => if behind.rest.len() < at.rest.len() {
                match nodes(behind) {
                    Err(e) => Err(e),
                    Ok((others, end)) => Ok((seq![first] + others, end)),
                }
            } else {
                Ok((seq![first], behind))
            },
        }
    }
}

/// The root for the top-level nodes `tops`: the node itself where there is
/// exactly one, else an element `html` without attributes that holds them.
pub open spec fn root_of(tops: Seq<NodeView>) -> NodeView {
    if tops.len() == 1 {
        tops[0]
    } else {
        NodeView {
            children: tops,
            node_type: NodeTypeView::Element(
                ElementDataView { tag_name: "html"@, attrs: Map::empty() },
            ),
        }
    }
}

/// The tree for the document `source`.
pub open spec fn document(source: Seq<char>) -> Result<NodeView, Failure> {
    match nodes(Cursor::start(source)) {
        Err(e) => Err(e),
        Ok((tops, _)) => Ok(root_of(tops)),
    }
}

/// What characterises a run: it stays inside the text, each of its
/// characters satisfies the predicate, and the character behind it does not.
pub proof fn lemma_run_len(s: Seq<char>, p: spec_fn(char) -> bool)
    ensures
        run_len(s, p) <= s.len(),
        forall|i: int| 0 <= i < run_len(s, p) ==> p(#[trigger] s[i]),
        run_len(s, p) < s.len() ==> !p(s[run_len(s, p) as int]),
    decreases s.len(),
{
    if s.len() > 0 && p(s[0]) {
        let t = s.drop_first();
        lemma_run_len(t, p);
        assert forall|i: int| 0 <= i < run_len(s, p) implies p(#[trigger] s[i]) by {
            if i > 0 {
                assert(s[i] == t[i - 1]);
            }
        }
        if run_len(s, p) < s.len() {
            assert(s[run_len(s, p) as int] == t[run_len(t, p) as int]);
        }
    }
}

/// A beginning whose characters satisfy the predicate, with one behind it
/// that does not, is the run.
pub proof fn lemma_run_len_is(s: Seq<char>, p: spec_fn(char) -> bool, n: nat)
    requires
        n <= s.len(),
        forall|i: int| 0 <= i < n ==> p(#[trigger] s[i]),
        n < s.len() ==> !p(s[n as int]),
    ensures
        run_len(s, p) == n,
    decreases n,
{
    if n > 0 {
        let t = s.drop_first();
        assert(p(s[0]));
        assert forall|i: int| 0 <= i < n - 1 implies p(#[trigger] t[i]) by {
            assert(t[i] == s[i + 1]);
        }
        if n < s.len() {
            assert(t[n - 1] == s[n as int]);
        }
        lemma_run_len_is(t, p, (n - 1) as nat);
    }
}

/// Reading on twice is reading on once.
pub proof fn lemma_advance_twice(c: Cursor, m: nat, n: nat)
    requires
        m + n <= c.rest.len(),
    ensures
        c.advance(m).advance(n) == c.advance(m + n),
{
    let a = c.rest.take(m as int);
    let b = c.rest.skip(m as int).take(n as int);
    assert(c.rest.take((m + n) as int) =~= a + b);
    lemma_encode_concat(a, b);
    assert(c.rest.skip(m as int).skip(n as int) =~= c.rest.skip((m + n) as int));
}

/// Behind skipped white space there is no white space to skip.
pub proof fn lemma_skip_whitespace_once(c: Cursor)
    ensures
        skip_whitespace(skip_whitespace(c)) == skip_whitespace(c),
        skip_whitespace(c).rest.len() <= c.rest.len(),
{
    lemma_run_len(c.rest, white_space_chars());
    let at = skip_whitespace(c);
    lemma_run_len_is(at.rest, white_space_chars(), 0);
    lemma_advance_twice(c, run_len(c.rest, white_space_chars()), 0);
}

/// An attribute takes at least one character.
pub proof fn lemma_attr_takes_input(c: Cursor)
    ensures
        attr(c) matches Ok((_, behind)) ==> behind.rest.len() < c.rest.len(),
{
    lemma_run_len(c.rest, name_chars());
    let behind_key = name(c).1;
    if let Ok(behind_sign) = expect(behind_key, seq!['=']) {
        lemma_run_len(behind_sign.advance(1).rest, chars_other_than(behind_sign.rest[0]));
    }
}

#[via_fn]
proof fn attributes_decreases(c: Cursor) {
    lemma_run_len(c.rest, white_space_chars());
    let at = skip_whitespace(c);
    lemma_run_len(at.rest, name_chars());
    let behind_key = name(at).1;
    if let Ok(behind_sign) = expect(behind_key, seq!['=']) {
        lemma_run_len(behind_sign.advance(1).rest, chars_other_than(behind_sign.rest[0]));
    }
}

#[via_fn]
proof fn element_decreases(c: Cursor) {
    if let Ok(behind_open) = expect(c, seq!['<']) {
        lemma_run_len(behind_open.rest, name_chars());
        let behind_tag = name(behind_open).1;
        if let Ok((_, behind_attrs)) = attributes(behind_tag) {
            lemma_attributes_lead_on(behind_tag);
        }
    }
}

#[via_fn]
proof fn nodes_decreases(c: Cursor) {
    lemma_run_len(c.rest, white_space_chars());
}

/// Reading attributes only moves the cursor on.
pub proof fn lemma_attributes_lead_on(c: Cursor)
    ensures
        attributes(c) matches Ok((_, end)) ==> end.rest.len() <= c.rest.len(),
    decreases c.rest.len(),
{
    lemma_run_len(c.rest, white_space_chars());
    let at = skip_whitespace(c);
    if at.rest.len() > 0 && at.rest[0] != '>' {
        lemma_run_len(at.rest, name_chars());
        let behind_key = name(at).1;
        if let Ok(behind_sign) = expect(behind_key, seq!['=']) {
            lemma_run_len(behind_sign.advance(1).rest, chars_other_than(behind_sign.rest[0]));
            if let Ok((_, behind)) = attr_value(behind_sign) {
                lemma_attributes_lead_on(behind);
            }
        }
    }
}

/// An element takes at least one character.
pub proof fn lemma_element_takes_input(c: Cursor)
    ensures
        element(c) matches Ok((_, behind)) ==> behind.rest.len() < c.rest.len(),
    decreases c.rest.len(), 0int,
{
    if let Ok(behind_open) = expect(c, seq!['<']) {
        lemma_run_len(behind_open.rest, name_chars());
        let (tag, behind_tag) = name(behind_open);
        lemma_attributes_lead_on(behind_tag);
        if let Ok((_, behind_attrs)) = attributes(behind_tag) {
            if let Ok(inside) = expect(behind_attrs, seq!['>']) {
                lemma_nodes_lead_on(inside);
            }
        }
    }
}

/// A node takes at least one character, unless the input is at its end.
pub proof fn lemma_node_takes_input(c: Cursor)
    ensures
        node(c) matches Ok((_, behind)) ==> behind.rest.len() <= c.rest.len() && (c.rest.len() > 0
            ==> behind.rest.len() < c.rest.len()),
    decreases c.rest.len(), 1int,
{
    if seq!['<'].is_prefix_of(c.rest) {
        lemma_element_takes_input(c);
    } else {
        lemma_run_len(c.rest, chars_other_than('<'));
        if c.rest.len() > 0 {
            if c.rest[0] == '<' {
                assert(seq!['<'] =~= c.rest.subrange(0, 1));
            }
            assert(chars_other_than('<')(c.rest[0]));
        }
    }
}

/// Reading sibling nodes only moves the cursor on.
pub proof fn lemma_nodes_lead_on(c: Cursor)
    ensures
        nodes(c) matches Ok((_, end)) ==> end.rest.len() <= c.rest.len(),
    decreases c.rest.len(), 2int,
{
    lemma_skip_whitespace_once(c);
    let at = skip_whitespace(c);
    if !(at.rest.len() == 0 || seq!['<', '/'].is_prefix_of(at.rest)) {
        lemma_node_takes_input(at);
        if let Ok((_, behind)) = node(at) {
            lemma_nodes_lead_on(behind);
        }
    }
}

/// White space in front of sibling nodes does not count.
pub proof fn lemma_nodes_skip_whitespace(c: Cursor)
    ensures
        nodes(skip_whitespace(c)) == nodes(c),
{
    lemma_skip_whitespace_once(c);
}

/// White space in front of attributes does not count.
pub proof fn lemma_attributes_skip_whitespace(c: Cursor)
    ensures
        attributes(skip_whitespace(c)) == attributes(c),
{
    lemma_skip_whitespace_once(c);
}

} // verus!
