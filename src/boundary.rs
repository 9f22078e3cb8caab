//! Where a valid UTF-8 byte sequence may be cut: next to any ASCII byte.
use vstd::prelude::*;
use vstd::utf8::*;

verus! {

/// An ASCII byte starts a character.
pub proof fn lemma_boundary_at_ascii(b: Seq<u8>, i: int)
    requires
        valid_utf8(b),
        0 <= i < b.len(),
        b[i] < 128,
    ensures
        is_char_boundary(b, i),
{
    is_char_boundary_iff_not_is_continuation_byte(b, i);
}

/// A character starts right after an ASCII byte.
pub proof fn lemma_boundary_after_ascii(b: Seq<u8>, i: int)
    requires
        valid_utf8(b),
        1 <= i <= b.len(),
        b[i - 1] < 128,
    ensures
        is_char_boundary(b, i),
    decreases b.len(),
{
    let n = length_of_first_scalar(b);
    let rest = pop_first_scalar(b);
    if i - 1 < n {
        assert(n == 1);
        is_char_boundary_start_end_of_seq(rest);
    } else {
        assert(rest[i - n - 1] == b[i - 1]);
        lemma_boundary_after_ascii(rest, i - n);
    }
}

/// A boundary of `b` at or after `s` is a boundary of the part of `b` from `s` on.
pub proof fn lemma_boundary_in_suffix(b: Seq<u8>, s: int, e: int)
    requires
        valid_utf8(b),
        0 <= s <= e <= b.len(),
        is_char_boundary(b, s),
        is_char_boundary(b, e),
    ensures
        valid_utf8(b.subrange(s, b.len() as int)),
        is_char_boundary(b.subrange(s, b.len() as int), e - s),
{
    let t = b.subrange(s, b.len() as int);
    valid_utf8_split(b, s);
    if e < b.len() {
        is_char_boundary_iff_not_is_continuation_byte(b, e);
        is_char_boundary_iff_not_is_continuation_byte(t, e - s);
    } else {
        is_char_boundary_start_end_of_seq(t);
    }
}

} // verus!
