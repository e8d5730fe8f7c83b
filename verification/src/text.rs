//! Byte-level facts about UTF-8 source text, and the few string operations
//! the lexer and parser need.
use vstd::prelude::*;
use vstd::string::*;
use vstd::utf8::*;

verus! {

broadcast use vstd::utf8::encode_utf8_valid_utf8;

/// The UTF-8 bytes of a string.
pub open spec fn bytes_of(s: &str) -> Seq<u8> {
    s.spec_bytes()
}

/// Every string's bytes are valid UTF-8.
pub proof fn lemma_str_valid(s: &str)
    ensures
        valid_utf8(bytes_of(s)),
{
}

/// Two strings have the same characters exactly when they have the same bytes.
pub proof fn lemma_same_bytes_same_chars(a: &str, b: &str)
    ensures
        (bytes_of(a) == bytes_of(b)) <==> (a@ == b@),
{
    broadcast use vstd::utf8::encode_utf8_decode_utf8;

    if bytes_of(a) == bytes_of(b) {
        assert(decode_utf8(encode_utf8(a@)) == a@);
        assert(decode_utf8(encode_utf8(b@)) == b@);
    }
}

/// In valid UTF-8 the byte after an ASCII byte starts a new character (or is
/// the end of the text).
pub proof fn lemma_ascii_then_boundary(b: Seq<u8>, i: int)
    requires
        valid_utf8(b),
        0 <= i < b.len(),
        b[i] <= 0x7f,
    ensures
        is_char_boundary(b, i + 1),
    decreases b.len(),
{
    let w = length_of_first_scalar(b);
    let tail = pop_first_scalar(b);
    assert(valid_first_scalar(b) && valid_utf8(tail));
    assert(tail.len() == b.len() - w);
    if i == 0 {
        assert(w == 1);
        assert(is_char_boundary(tail, 0));
    } else if i < w {
        assert(is_continuation_byte(b[i]));
    } else {
        assert(tail[i - w] == b[i]);
        lemma_ascii_then_boundary(tail, i - w);
    }
}

/// Where a lexeme may end: at the end of the text, before a byte that starts a
/// character, or after an ASCII byte.
pub open spec fn boundary_ok(b: Seq<u8>, i: int) -> bool {
    &&& 0 <= i <= b.len()
    &&& (i == b.len() || !is_continuation_byte(b[i]) || (i > 0 && b[i - 1] <= 0x7f))
}

pub proof fn lemma_boundary_ok(b: Seq<u8>, i: int)
    requires
        valid_utf8(b),
        boundary_ok(b, i),
    ensures
        is_char_boundary(b, i),
{
    broadcast use vstd::utf8::is_char_boundary_start_end_of_seq;

    if i == b.len() {
    } else if !is_continuation_byte(b[i]) {
        is_char_boundary_iff_not_is_continuation_byte(b, i);
    } else {
        lemma_ascii_then_boundary(b, i - 1);
    }
}

/// The part of `s` between two character boundaries.
pub fn slice_str<'a>(s: &'a str, start: usize, end: usize) -> (r: &'a str)
    requires
        start <= end <= bytes_of(s).len(),
        is_char_boundary(bytes_of(s), start as int),
        is_char_boundary(bytes_of(s), end as int),
    ensures
        bytes_of(r) == bytes_of(s).subrange(start as int, end as int),
{
    broadcast use vstd::utf8::is_char_boundary_start_end_of_seq;

    let ghost b = bytes_of(s);
    let (head, _) = s.split_at(end);
    let ghost h = bytes_of(head);
    proof {
        assert(valid_utf8(h));
        if start < end {
            is_char_boundary_iff_not_is_continuation_byte(b, start as int);
            assert(h[start as int] == b[start as int]);
            is_char_boundary_iff_not_is_continuation_byte(h, start as int);
        } else {
            assert(h.len() == end);
        }
    }
    let (_, mid) = head.split_at(start);
    assert(bytes_of(mid) =~= b.subrange(start as int, end as int));
    mid
}

/// Whether two strings hold the same text.
pub fn text_eq(a: &str, b: &str) -> (r: bool)
    ensures
        r == (a@ == b@),
{
    proof {
        lemma_same_bytes_same_chars(a, b);
    }
    let x = a.as_bytes();
    let y = b.as_bytes();
    if x.len() != y.len() {
        return false;
    }
    let mut i: usize = 0;
    while i < x.len()
        invariant
            x@ == bytes_of(a),
            y@ == bytes_of(b),
            x.len() == y.len(),
            0 <= i <= x.len(),
            forall|j: int| 0 <= j < i ==> x@[j] == y@[j],
        decreases x.len() - i,
    {
        if x[i] != y[i] {
            return false;
        }
        i = i + 1;
    }
    assert(x@ =~= y@);
    true
}

} // verus!
