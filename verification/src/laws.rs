//! What holds of every parse: how far a production reads, what the input
//! that it has read looks like, and which texts stand among siblings.

use vstd::prelude::*;
use crate::dom::NodeTypeView;
use crate::grammar::{
    attr, attr_value, attributes, chars_other_than, element, expect, is_quote,
    lemma_advance_twice, lemma_attr_takes_input, lemma_element_takes_input,
    lemma_node_takes_input, lemma_run_len, lemma_skip_whitespace_once, name, name_chars, node,
    nodes, run, run_len, skip_whitespace, white_space_chars, Cursor,
};
use crate::text::white_space;

verus! {

/// Reading on by characters that are there leads on, and reads them.
pub proof fn lemma_advance_leads(c: Cursor, n: nat)
    requires
        n <= c.rest.len(),
    ensures
        c.leads_to(c.advance(n)),
        c.read_until(c.advance(n)) == c.rest.take(n as int),
{
}

/// Reading on in two steps is reading on, and reads what the two steps
/// read, one after the other.
pub proof fn lemma_leads_on(a: Cursor, b: Cursor, c: Cursor)
    requires
        a.leads_to(b),
        b.leads_to(c),
    ensures
        a.leads_to(c),
        a.read_until(c) == a.read_until(b) + b.read_until(c),
{
    let m = (a.rest.len() - b.rest.len()) as nat;
    let n = (b.rest.len() - c.rest.len()) as nat;
    lemma_advance_twice(a, m, n);
    assert(a.rest.take((m + n) as int) =~= a.rest.take(m as int) + a.rest.skip(m as int).take(
        n as int,
    ));
}

/// The position never moves back.
pub proof fn lemma_leads_to_later_position(a: Cursor, b: Cursor)
    requires
        a.leads_to(b),
    ensures
        a.pos <= b.pos,
        a.rest == a.read_until(b) + b.rest,
{
    assert(a.rest =~= a.read_until(b) + b.rest);
}

/// A run is read from the input as it stands there.
pub proof fn lemma_run_reads(c: Cursor, p: spec_fn(char) -> bool)
    ensures
        c.leads_to(run(c, p).1),
        c.read_until(run(c, p).1) == run(c, p).0,
{
    lemma_run_len(c.rest, p);
}

/// A literal that is read stood in the input.
pub proof fn lemma_expect_reads(c: Cursor, lit: Seq<char>)
    ensures
        expect(c, lit) matches Ok(behind) ==> c.leads_to(behind) && c.read_until(behind) == lit,
{
    if lit.is_prefix_of(c.rest) {
        assert(c.rest.take(lit.len() as int) =~= lit);
    }
}

/// An attribute value stood in the input between two equal quotes, and does
/// not hold that quote.
pub proof fn lemma_attr_value_reads(c: Cursor)
    ensures
        attr_value(c) matches Ok((value, behind)) ==> {
            &&& c.leads_to(behind)
            &&& is_quote(c.rest[0])
            &&& c.read_until(behind) == seq![c.rest[0]] + value + seq![c.rest[0]]
            &&& !value.contains(c.rest[0])
        },
{
    if let Ok((value, behind)) = attr_value(c) {
        let quote = c.rest[0];
        let inner = c.advance(1);
        let n = run_len(inner.rest, chars_other_than(quote));
        lemma_run_len(inner.rest, chars_other_than(quote));
        lemma_advance_twice(c, 1, n + 1);
        assert(c.rest.take(n as int + 2) =~= seq![quote] + value + seq![quote]);
        assert forall|i: int| 0 <= i < value.len() implies value[i] != quote by {
            assert(chars_other_than(quote)(inner.rest[i]));
        }
    }
}

/// An attribute stood in the input as its name, `=`, and its value between
/// two equal quotes.
pub proof fn lemma_attr_reads(c: Cursor)
    ensures
        attr(c) matches Ok(((key, value), behind)) ==> {
            let quote = c.rest[key.len() as int + 1];
            &&& c.leads_to(behind)
            &&& behind.rest.len() < c.rest.len()
            &&& is_quote(quote)
            &&& c.read_until(behind) == key + seq!['=', quote] + value + seq![quote]
        },
{
    if let Ok(((key, value), behind)) = attr(c) {
        let behind_key = name(c).1;
        let behind_sign = expect(behind_key, seq!['='])->Ok_0;
        lemma_attr_takes_input(c);
        lemma_run_reads(c, name_chars());
        lemma_expect_reads(behind_key, seq!['=']);
        lemma_attr_value_reads(behind_sign);
        lemma_leads_on(c, behind_key, behind_sign);
        lemma_leads_on(c, behind_sign, behind);
        lemma_leads_to_later_position(c, behind_sign);
        let quote = behind_sign.rest[0];
        assert(c.rest[key.len() as int + 1] == quote);
        assert(c.read_until(behind) =~= key + seq!['=', quote] + value + seq![quote]);
    }
}

/// Attributes are read up to a `>`.
pub proof fn lemma_attributes_read(c: Cursor)
    ensures
        attributes(c) matches Ok((_, end)) ==> c.leads_to(end) && end.rest.len() > 0 && end.rest[0]
            == '>',
    decreases c.rest.len(),
{
    lemma_run_reads(c, white_space_chars());
    let at = skip_whitespace(c);
    if at.rest.len() > 0 && at.rest[0] != '>' {
        lemma_attr_reads(at);
        if let Ok((_, behind)) = attr(at) {
            lemma_leads_on(c, at, behind);
            lemma_attributes_read(behind);
            if let Ok((_, end)) = attributes(behind) {
                lemma_leads_on(c, behind, end);
            }
        }
    }
}

/// Whether `source` is written as an element named `tag`: it begins with
/// `<` and the name, and ends with `</`, the same name and `>`.
pub open spec fn is_element_source(source: Seq<char>, tag: Seq<char>) -> bool {
    &&& (seq!['<'] + tag).is_prefix_of(source)
    &&& (seq!['<', '/'] + tag + seq!['>']).is_suffix_of(source)
}

/// An element is read only from input whose opening and closing tag bear
/// its name.
pub proof fn lemma_element_reads(c: Cursor)
    ensures
        element(c) matches Ok((node, behind)) ==> {
            &&& c.leads_to(behind)
            &&& behind.rest.len() < c.rest.len()
            &&& node.node_type matches NodeTypeView::Element(data)
            &&& is_element_source(c.read_until(behind), data.tag_name)
        },
    decreases c.rest.len(), 0int,
{
    if let Ok((node, behind)) = element(c) {
        lemma_element_takes_input(c);
        let behind_open = expect(c, seq!['<'])->Ok_0;
        let (tag, behind_tag) = name(behind_open);
        let behind_attrs = attributes(behind_tag)->Ok_0.1;
        let inside = expect(behind_attrs, seq!['>'])->Ok_0;
        let behind_children = nodes(inside)->Ok_0.1;
        let at_name = expect(behind_children, seq!['<', '/'])->Ok_0;
        let behind_name = expect(at_name, tag)->Ok_0;
        lemma_expect_reads(c, seq!['<']);
        lemma_run_reads(behind_open, name_chars());
        lemma_attributes_read(behind_tag);
        lemma_expect_reads(behind_attrs, seq!['>']);
        lemma_leads_on(c, behind_open, behind_tag);
        lemma_leads_on(c, behind_tag, behind_attrs);
        lemma_leads_on(c, behind_attrs, inside);
        lemma_nodes_read(inside);
        lemma_expect_reads(behind_children, seq!['<', '/']);
        lemma_expect_reads(at_name, tag);
        lemma_expect_reads(behind_name, seq!['>']);
        lemma_leads_on(c, inside, behind_children);
        lemma_leads_on(at_name, behind_name, behind);
        lemma_leads_on(behind_children, at_name, behind);
        lemma_leads_on(c, behind_children, behind);
        let source = c.read_until(behind);
        let closing = seq!['<', '/'] + tag + seq!['>'];
        assert(behind_children.read_until(behind) =~= closing);
        assert(closing =~= source.subrange(source.len() - closing.len(), source.len() as int));
        assert(seq!['<'] + tag =~= source.subrange(0, tag.len() as int + 1));
    }
}

/// A node is read from the input by reading on.
pub proof fn lemma_node_reads(c: Cursor)
    ensures
        node(c) matches Ok((_, behind)) ==> c.leads_to(behind),
    decreases c.rest.len(), 1int,
{
    if seq!['<'].is_prefix_of(c.rest) {
        lemma_element_reads(c);
    } else {
        lemma_run_reads(c, chars_other_than('<'));
    }
}

/// Sibling nodes are read up to the end of input or to a `</`.
pub proof fn lemma_nodes_read(c: Cursor)
    ensures
        nodes(c) matches Ok((_, end)) ==> c.leads_to(end) && (end.rest.len() == 0 || seq![
            '<',
            '/',
        ].is_prefix_of(end.rest)),
    decreases c.rest.len(), 2int,
{
    lemma_run_reads(c, white_space_chars());
    let at = skip_whitespace(c);
    if !(at.rest.len() == 0 || seq!['<', '/'].is_prefix_of(at.rest)) {
        lemma_node_takes_input(at);
        lemma_node_reads(at);
        if let Ok((_, behind)) = node(at) {
            lemma_leads_on(c, at, behind);
            lemma_nodes_read(behind);
            if let Ok((_, end)) = nodes(behind) {
                lemma_leads_on(c, behind, end);
            }
        }
    }
}

/// Whether `content` can be the text of a node among siblings: it is not
/// empty, does not begin with white space and holds no `<`.
pub open spec fn is_sibling_text(content: Seq<char>) -> bool {
    &&& content.len() > 0
    &&& !white_space(content[0])
    &&& forall|j: int| 0 <= j < content.len() ==> content[j] != '<'
}

/// White space between sibling nodes leaves nothing behind: no text among
/// siblings is empty, and none begins with white space, so a region of
/// nothing but white space makes no node. White space that follows the first
/// character of a text belongs to it: a text is the input from that
/// character up to the next `<` or the end of input, unchanged.
pub proof fn lemma_sibling_texts(c: Cursor)
    ensures
        nodes(c) matches Ok((siblings, _)) ==> forall|i: int|
            0 <= i < siblings.len() ==> (#[trigger] siblings[i].node_type matches NodeTypeView::Text(
                content,
            ) ==> is_sibling_text(content)),
    decreases c.rest.len(),
{
    lemma_skip_whitespace_once(c);
    lemma_run_len(c.rest, white_space_chars());
    let at = skip_whitespace(c);
    if !(at.rest.len() == 0 || seq!['<', '/'].is_prefix_of(at.rest)) {
        lemma_node_takes_input(at);
        if let Ok((first, behind)) = node(at) {
            assert(first.node_type matches NodeTypeView::Text(content) ==> is_sibling_text(content)) by {
                if !seq!['<'].is_prefix_of(at.rest) {
                    let n = run_len(at.rest, chars_other_than('<'));
                    lemma_run_len(at.rest, chars_other_than('<'));
                    if at.rest[0] == '<' {
                        assert(seq!['<'] =~= at.rest.subrange(0, 1));
                    }
                    assert(chars_other_than('<')(at.rest[0]));
                    assert(!white_space_chars()(at.rest[0]));
                    assert forall|j: int| 0 <= j < n implies at.rest.take(n as int)[j] != '<' by {
                        assert(chars_other_than('<')(at.rest[j]));
                    }
                } else {
                    lemma_element_is_no_text(at);
                }
            }
            lemma_sibling_texts(behind);
            if let Ok((others, _)) = nodes(behind) {
                let siblings = seq![first] + others;
                assert forall|i: int| 0 <= i < siblings.len() implies (
                #[trigger] siblings[i].node_type matches NodeTypeView::Text(content)
                    ==> is_sibling_text(content)) by {
                    if i > 0 {
                        assert(siblings[i] == others[i - 1]);
                    }
                }
            }
        }
    }
}

/// What is read as an element is an element.
pub proof fn lemma_element_is_no_text(c: Cursor)
    ensures
        element(c) matches Ok((node, _)) ==> node.node_type is Element,
{
}

} // verus!
