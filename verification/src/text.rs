//! Text as the parser sees it: a string is a sequence of characters, stored as
//! their UTF-8 bytes, and a byte offset is a place between two characters.

use vstd::prelude::*;
use vstd::utf8::*;
use vstd::string::*;

verus! {

/// The number of bytes that `s` occupies in a string.
pub open spec fn utf8_len(s: Seq<char>) -> nat {
    encode_utf8(s).len()
}

/// Encoding distributes over concatenation.
pub proof fn lemma_encode_concat(a: Seq<char>, b: Seq<char>)
    ensures
        encode_utf8(a + b) == encode_utf8(a) + encode_utf8(b),
        utf8_len(a + b) == utf8_len(a) + utf8_len(b),
    decreases a.len(),
{
    if a.len() == 0 {
        assert(a + b =~= b);
        assert(encode_utf8(a) + encode_utf8(b) =~= encode_utf8(b));
    } else {
        lemma_encode_concat(a.drop_first(), b);
        assert((a + b).drop_first() =~= a.drop_first() + b);
        assert(encode_utf8(a + b) =~= encode_utf8(a) + encode_utf8(b));
    }
}

/// Where two encoded texts meet is a character boundary of the whole.
pub proof fn lemma_boundary_between(x: Seq<u8>, y: Seq<u8>)
    requires
        valid_utf8(x),
        valid_utf8(y),
    ensures
        valid_utf8(x + y),
        is_char_boundary(x + y, x.len() as int),
{
    let all = x + y;
    valid_utf8_concat(x, y);
    if y.len() == 0 {
        assert(all =~= x);
        is_char_boundary_start_end_of_seq(all);
    } else {
        assert(all[x.len() as int] == y[0]);
        is_char_boundary_iff_not_is_continuation_byte(all, x.len() as int);
    }
}

/// Stepping over the first `k` characters that follow a character boundary
/// leads to a character boundary again, with the other characters after it.
pub proof fn lemma_advance(bytes: Seq<u8>, p: int, k: int)
    requires
        valid_utf8(bytes),
        is_char_boundary(bytes, p),
        0 <= p <= bytes.len(),
        0 <= k <= decode_utf8(bytes.subrange(p, bytes.len() as int)).len(),
    ensures
        ({
            let rest = decode_utf8(bytes.subrange(p, bytes.len() as int));
            let n = utf8_len(rest.take(k));
            &&& p + n <= bytes.len()
            &&& is_char_boundary(bytes, p + n)
            &&& bytes.subrange(p, p + n) == encode_utf8(rest.take(k))
            &&& decode_utf8(bytes.subrange(p + n, bytes.len() as int)) == rest.skip(k)
        }),
{
    let head = bytes.subrange(0, p);
    let tail = bytes.subrange(p, bytes.len() as int);
    valid_utf8_split(bytes, p);
    decode_utf8_encode_utf8(tail);
    let rest = decode_utf8(tail);
    let a = rest.take(k);
    let b = rest.skip(k);
    assert(rest =~= a + b);
    lemma_encode_concat(a, b);
    encode_utf8_valid_utf8(a);
    encode_utf8_valid_utf8(b);
    valid_utf8_concat(head, encode_utf8(a));
    lemma_boundary_between(head + encode_utf8(a), encode_utf8(b));
    assert(tail == encode_utf8(a) + encode_utf8(b));
    assert(bytes =~= head + tail);
    assert(bytes =~= (head + encode_utf8(a)) + encode_utf8(b));
    let n = encode_utf8(a).len() as int;
    assert(bytes.subrange(p, p + n) =~= encode_utf8(a));
    assert(bytes.subrange(p + n, bytes.len() as int) =~= encode_utf8(b));
    encode_utf8_decode_utf8(b);
}

/// A text begins with another exactly when its bytes begin with the bytes of
/// the other: no character's encoding is the beginning of another's.
pub proof fn lemma_prefix_bytes(a: Seq<char>, r: Seq<char>)
    ensures
        encode_utf8(a).is_prefix_of(encode_utf8(r)) <==> a.is_prefix_of(r),
    decreases a.len(),
{
    let ea = encode_utf8(a);
    let er = encode_utf8(r);
    if a.is_prefix_of(r) {
        assert(r =~= a + r.skip(a.len() as int));
        lemma_encode_concat(a, r.skip(a.len() as int));
        assert(ea =~= er.subrange(0, ea.len() as int));
    }
    if ea.is_prefix_of(er) {
        if a.len() == 0 {
            assert(a =~= r.subrange(0, 0));
        } else {
            encode_utf8_first_scalar(a);
            assert(er.len() > 0);
            assert(r.len() > 0);
            encode_utf8_first_scalar(r);
            let n = length_of_first_scalar(ea);
            assert(forall|i: int| 0 <= i < ea.len() ==> ea[i] == er.subrange(0, ea.len() as int)[i]);
            assert(er[0] == ea[0]);
            assert(n >= 2 ==> er[1] == ea[1]);
            assert(n >= 3 ==> er[2] == ea[2]);
            assert(n >= 4 ==> er[3] == ea[3]);
            assert(decode_first_scalar(er) == decode_first_scalar(ea));
            assert(a[0] as u32 == r[0] as u32);
            char_u32_cast(a[0], a[0] as u32);
            char_u32_cast(r[0], r[0] as u32);
            assert(a[0] == r[0]);
            let a1 = a.drop_first();
            let r1 = r.drop_first();
            let e0 = encode_scalar(a[0] as u32);
            assert(ea == e0 + encode_utf8(a1));
            assert(er == e0 + encode_utf8(r1));
            assert(encode_utf8(a1) =~= ea.subrange(n, ea.len() as int));
            assert(encode_utf8(r1) =~= er.subrange(n, er.len() as int));
            assert(encode_utf8(a1) =~= encode_utf8(r1).subrange(0, encode_utf8(a1).len() as int));
            lemma_prefix_bytes(a1, r1);
            assert(a1 == r1.subrange(0, a1.len() as int));
            assert forall|i: int| 0 <= i < a.len() implies a[i] == r[i] by {
                if i > 0 {
                    assert(a[i] == a1[i - 1]);
                    assert(r[i] == r1[i - 1]);
                    assert(a1[i - 1] == r1.subrange(0, a1.len() as int)[i - 1]);
                }
            }
            assert(a =~= r.subrange(0, a.len() as int));
        }
    }
}

/// Whether `c` counts as white space: what `char::is_whitespace` of the
/// standard library answers for `c`, the property White_Space of the Unicode
/// character database.
pub uninterp spec fn white_space(c: char) -> bool;

/// Calls `char::is_whitespace`. Nothing is proved here: the contract gives
/// the answer of the standard library its name, [`white_space`], and claims
/// no more of it than that it depends on `c` alone.
#[verifier::external_body]
pub(crate) fn is_whitespace(c: char) -> (b: bool)
    ensures
        b == white_space(c),
{
    c.is_whitespace()
}

/// The number of bytes that `c` occupies in a string.
pub(crate) fn char_width(c: char) -> (n: usize)
    ensures
        n == utf8_len(seq![c]),
        1 <= n <= 4,
{
    let v = c as u32;
    proof {
        char_is_scalar(c);
        reveal_with_fuel(encode_utf8, 2);
        assert(seq![c].drop_first() =~= Seq::<char>::empty());
        assert(encode_utf8(seq![c]) =~= encode_scalar(v));
    }
    if v < 0x80 {
        1
    } else if v < 0x800 {
        2
    } else if v < 0x10000 {
        3
    } else {
        4
    }
}

/// The length of `s` in bytes.
pub(crate) fn byte_len(s: &str) -> (n: usize)
    ensures
        n == utf8_len(s@),
{
    s.as_bytes().len()
}

/// Whether the bytes of `hay` begin with the bytes of `needle`.
pub(crate) fn bytes_start_with(hay: &[u8], needle: &[u8]) -> (b: bool)
    ensures
        b == needle@.is_prefix_of(hay@),
{
    if needle.len() > hay.len() {
        return false;
    }
    let mut i: usize = 0;
    while i < needle.len()
        invariant
            i <= needle.len() <= hay.len(),
            forall|j: int| 0 <= j < i ==> needle@[j] == hay@[j],
        decreases needle.len() - i,
    {
        if needle[i] != hay[i] {
            assert(hay@.subrange(0, needle@.len() as int)[i as int] != needle@[i as int]);
            return false;
        }
        i += 1;
    }
    assert(needle@ =~= hay@.subrange(0, needle@.len() as int));
    true
}

/// Whether `hay` begins with `needle`.
pub(crate) fn str_starts_with(hay: &str, needle: &str) -> (b: bool)
    ensures
        b == needle@.is_prefix_of(hay@),
{
    proof {
        lemma_prefix_bytes(needle@, hay@);
    }
    bytes_start_with(hay.as_bytes(), needle.as_bytes())
}

/// Whether two strings hold the same text.
pub(crate) fn str_eq(a: &str, b: &str) -> (r: bool)
    ensures
        r == (a@ == b@),
{
    proof {
        lemma_prefix_bytes(a@, b@);
        lemma_prefix_bytes(b@, a@);
        if a@.is_prefix_of(b@) && b@.is_prefix_of(a@) {
            assert(a@ =~= b@);
        }
    }
    str_starts_with(a, b) && str_starts_with(b, a)
}

/// The character at the head of `s`, if there is one.
pub(crate) fn first_char(s: &str) -> (r: Option<char>)
    ensures
        r == (if s@.len() > 0 { Some(s@[0]) } else { None }),
{
    let mut it = s.chars();
    it.next()
}

/// The part of `s` from byte offset `from` on.
pub(crate) fn tail_from(s: &str, from: usize) -> (r: &str)
    requires
        is_char_boundary(s.spec_bytes(), from as int),
    ensures
        r@ == decode_utf8(s.spec_bytes().subrange(from as int, s.spec_bytes().len() as int)),
{
    let (_, r) = s.split_at(from);
    proof {
        encode_utf8_decode_utf8(r@);
    }
    r
}

/// The part of `s` between the byte offsets `from` and `to`.
pub(crate) fn slice_between(s: &str, from: usize, to: usize) -> (r: &str)
    requires
        from <= to,
        is_char_boundary(s.spec_bytes(), from as int),
        is_char_boundary(s.spec_bytes(), to as int),
    ensures
        r@ == decode_utf8(s.spec_bytes().subrange(from as int, to as int)),
{
    let (head, _) = s.split_at(to);
    proof {
        let bytes = s.spec_bytes();
        encode_utf8_valid_utf8(s@);
        encode_utf8_valid_utf8(head@);
        if from > 0 {
            if from < to {
                is_char_boundary_iff_not_is_continuation_byte(bytes, from as int);
                is_char_boundary_iff_not_is_continuation_byte(head.spec_bytes(), from as int);
            } else {
                is_char_boundary_start_end_of_seq(head.spec_bytes());
            }
        }
    }
    let (_, r) = head.split_at(from);
    proof {
        encode_utf8_decode_utf8(r@);
        assert(r.spec_bytes() =~= s.spec_bytes().subrange(from as int, to as int));
    }
    r
}

} // verus!
