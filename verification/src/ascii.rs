//! Byte-level helpers for identifiers whose delimiters and letters are ASCII:
//! the first occurrence of a byte, and equality up to the case of ASCII
//! letters.

use vstd::prelude::*;
use vstd::string::*;
use vstd::utf8::*;

verus! {

/// Whether `i` is where `needle` first occurs in `s`.
pub open spec fn is_first_at(s: Seq<u8>, needle: u8, i: int) -> bool {
    &&& 0 <= i < s.len()
    &&& s[i] == needle
    &&& forall|j: int| 0 <= j < i ==> s[j] != needle
}

/// Where `needle` first occurs in `s`, or `None` where it does not occur.
pub open spec fn first_index(s: Seq<u8>, needle: u8) -> Option<int> {
    if exists|i: int| is_first_at(s, needle, i) {
        Some(choose|i: int| is_first_at(s, needle, i))
    } else {
        None
    }
}

/// A byte occurs first in one place only, and that place is what
/// `first_index` names.
pub proof fn lemma_first_index_is(s: Seq<u8>, needle: u8, i: int)
    requires
        is_first_at(s, needle, i),
    ensures
        first_index(s, needle) == Some(i),
{
    let k = choose|k: int| is_first_at(s, needle, k);
    assert(is_first_at(s, needle, k));
    if k < i {
        assert(s[k] != needle);
    } else if i < k {
        assert(s[i] != needle);
    }
}

/// Where a byte does not occur, `first_index` is `None`.
pub proof fn lemma_first_index_none(s: Seq<u8>, needle: u8)
    requires
        forall|j: int| 0 <= j < s.len() ==> s[j] != needle,
    ensures
        first_index(s, needle) is None,
{
}

/// What `first_index` names is in range, holds the byte, and is preceded by no
/// other occurrence of it.
pub proof fn lemma_first_index_some(s: Seq<u8>, needle: u8)
    ensures
        first_index(s, needle) matches Some(i) ==> is_first_at(s, needle, i),
{
}

/// No byte before the place that `first_index` names is the byte looked for,
/// and none at all where it names no place.
pub proof fn lemma_first_index_free(s: Seq<u8>, needle: u8)
    ensures
        match first_index(s, needle) {
            Some(i) => forall|j: int| 0 <= j < i ==> s[j] != needle,
            None => forall|j: int| 0 <= j < s.len() ==> s[j] != needle,
        },
{
    if first_index(s, needle) is None {
        assert forall|j: int| 0 <= j < s.len() implies s[j] != needle by {
            if s[j] == needle {
                lemma_first_occurrence_exists(s, needle, j);
            }
        }
    }
}

/// A byte that occurs occurs first somewhere.
proof fn lemma_first_occurrence_exists(s: Seq<u8>, needle: u8, j: int)
    requires
        0 <= j < s.len(),
        s[j] == needle,
    ensures
        exists|i: int| is_first_at(s, needle, i),
    decreases j,
{
    if forall|k: int| 0 <= k < j ==> s[k] != needle {
        assert(is_first_at(s, needle, j));
    } else {
        let k = choose|k: int| 0 <= k < j && s[k] == needle;
        lemma_first_occurrence_exists(s, needle, k);
    }
}

/// Finds the first occurrence of `needle` in `bytes`.
pub fn find_byte(bytes: &[u8], needle: u8) -> (r: Option<usize>)
    ensures
        match r {
            Some(i) => first_index(bytes@, needle) == Some(i as int),
            None => first_index(bytes@, needle) is None,
        },
{
    let mut i: usize = 0;
    while i < bytes.len()
        invariant
            0 <= i <= bytes.len(),
            forall|j: int| 0 <= j < i ==> bytes@[j] != needle,
        decreases bytes.len() - i,
    {
        if bytes[i] == needle {
            proof {
                lemma_first_index_is(bytes@, needle, i as int);
            }
            return Some(i);
        }
        i += 1;
    }
    proof {
        lemma_first_index_none(bytes@, needle);
    }
    None
}

/// The byte with an ASCII capital letter replaced by its small letter; every
/// other byte, those outside ASCII among them, is left as it is.
pub open spec fn lower(b: u8) -> u8 {
    if 0x41 <= b <= 0x5a {
        (b + 0x20) as u8
    } else {
        b
    }
}

/// Whether two byte strings are equal up to the case of ASCII letters.
pub open spec fn eq_ignore_case(a: Seq<u8>, b: Seq<u8>) -> bool {
    &&& a.len() == b.len()
    &&& forall|i: int| 0 <= i < a.len() ==> lower(#[trigger] a[i]) == lower(b[i])
}

/// Folds an ASCII capital letter to its small letter.
pub fn to_lower(b: u8) -> (r: u8)
    ensures
        r == lower(b),
{
    if 0x41 <= b && b <= 0x5a {
        b + 0x20
    } else {
        b
    }
}

/// Compares two byte strings up to the case of ASCII letters.
pub fn eq_ignore_ascii_case(a: &[u8], b: &[u8]) -> (r: bool)
    ensures
        r == eq_ignore_case(a@, b@),
{
    if a.len() != b.len() {
        return false;
    }
    let mut i: usize = 0;
    while i < a.len()
        invariant
            a.len() == b.len(),
            0 <= i <= a.len(),
            forall|j: int| 0 <= j < i ==> lower(#[trigger] a@[j]) == lower(b@[j]),
        decreases a.len() - i,
    {
        if to_lower(a[i]) != to_lower(b[i]) {
            return false;
        }
        i += 1;
    }
    true
}

/// Equality up to case holds of a byte string and itself.
pub proof fn lemma_eq_ignore_case_reflexive(a: Seq<u8>)
    ensures
        eq_ignore_case(a, a),
{
}

/// In UTF-8 an ASCII byte is a character of its own: a character begins at it
/// and another one, or the end, follows it.
pub proof fn lemma_ascii_byte_boundaries(bytes: Seq<u8>, i: int)
    requires
        valid_utf8(bytes),
        0 <= i < bytes.len(),
        bytes[i] <= 0x7f,
    ensures
        is_char_boundary(bytes, i),
        is_char_boundary(bytes, i + 1),
    decreases bytes.len(),
{
    is_char_boundary_iff_not_is_continuation_byte(bytes, i);
    let rest = pop_first_scalar(bytes);
    let width = length_of_first_scalar(bytes);
    if i == 0 {
        assert(width == 1);
        is_char_boundary_start_end_of_seq(rest);
    } else {
        assert(is_char_boundary(rest, i - width));
        if i < width {
            assert(is_continuation_byte(bytes[i]));
        }
        assert(rest[i - width] == bytes[i]);
        lemma_ascii_byte_boundaries(rest, i - width);
    }
}

/// A character boundary of a string is one of each prefix that ends at a
/// later boundary.
pub proof fn lemma_boundary_in_prefix(bytes: Seq<u8>, from: int, to: int)
    requires
        valid_utf8(bytes),
        0 <= from <= to <= bytes.len(),
        is_char_boundary(bytes, from),
        is_char_boundary(bytes, to),
    ensures
        valid_utf8(bytes.subrange(0, to)),
        is_char_boundary(bytes.subrange(0, to), from),
{
    let prefix = bytes.subrange(0, to);
    valid_utf8_split(bytes, to);
    if from == to {
        is_char_boundary_start_end_of_seq(prefix);
    } else {
        is_char_boundary_iff_not_is_continuation_byte(bytes, from);
        is_char_boundary_iff_not_is_continuation_byte(prefix, from);
    }
}

/// The part of `s` between two of its character boundaries, given as byte
/// offsets.
pub(crate) fn substring<'a>(s: &'a str, from: usize, to: usize) -> (r: &'a str)
    requires
        from <= to <= s.spec_bytes().len(),
        is_char_boundary(s.spec_bytes(), from as int),
        is_char_boundary(s.spec_bytes(), to as int),
    ensures
        r.spec_bytes() == s.spec_bytes().subrange(from as int, to as int),
{
    proof {
        encode_utf8_valid_utf8(s@);
        lemma_boundary_in_prefix(s.spec_bytes(), from as int, to as int);
    }
    let (head, _) = s.split_at(to);
    let (_, r) = head.split_at(from);
    assert(r.spec_bytes() =~= s.spec_bytes().subrange(from as int, to as int));
    r
}

} // verus!
