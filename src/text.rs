//! Code-point boundaries and the split of a byte string into its longest
//! leading UTF-8 text and the bytes after it.
use vstd::prelude::*;

verus! {

/// A byte that can only continue a multi-byte encoded character.
pub open spec fn is_continuation(b: u8) -> bool {
    0x80 <= b && b <= 0xBF
}

/// Width of the well-formed UTF-8 sequence that starts at `i` in `s`, or 0 where
/// none starts there. Well-formed sequences are those of the Unicode table of
/// well-formed UTF-8 byte sequences: no overlong forms, no surrogates, nothing
/// above U+10FFFF.
pub open spec fn char_width_at(s: Seq<u8>, i: int) -> int {
    if i < 0 || i >= s.len() {
        0
    } else if s[i] <= 0x7F {
        1
    } else if 0xC2 <= s[i] && s[i] <= 0xDF {
        if i + 1 < s.len() && is_continuation(s[i + 1]) {
            2
        } else {
            0
        }
    } else if 0xE0 <= s[i] && s[i] <= 0xEF {
        let lo: u8 = if s[i] == 0xE0 { 0xA0 } else { 0x80 };
        let hi: u8 = if s[i] == 0xED { 0x9F } else { 0xBF };
        if i + 2 < s.len() && lo <= s[i + 1] && s[i + 1] <= hi && is_continuation(s[i + 2]) {
            3
        } else {
            0
        }
    } else if 0xF0 <= s[i] && s[i] <= 0xF4 {
        let lo: u8 = if s[i] == 0xF0 { 0x90 } else { 0x80 };
        let hi: u8 = if s[i] == 0xF4 { 0x8F } else { 0xBF };
        if i + 3 < s.len() && lo <= s[i + 1] && s[i + 1] <= hi && is_continuation(s[i + 2])
            && is_continuation(s[i + 3]) {
            4
        } else {
            0
        }
    } else {
        0
    }
}

/// Decoding from offset `i`, the offset at which the first ill-formed sequence
/// starts, or the length of `s` where the rest decodes.
pub open spec fn valid_up_to_from(s: Seq<u8>, i: int) -> int
    decreases s.len() - i,
{
    if i < 0 || i >= s.len() || char_width_at(s, i) == 0 {
        i
    } else {
        valid_up_to_from(s, i + char_width_at(s, i))
    }
}

/// Length of the longest prefix of `s` that is valid UTF-8.
pub open spec fn valid_prefix_len(s: Seq<u8>) -> int {
    valid_up_to_from(s, 0)
}

/// `s` is valid UTF-8 text.
pub open spec fn is_text(s: Seq<u8>) -> bool {
    valid_prefix_len(s) == s.len()
}

/// Offset `i` of `s` does not fall inside a multi-byte encoded character.
pub open spec fn is_char_boundary(s: Seq<u8>, i: int) -> bool {
    i == 0 || i == s.len() || (0 < i < s.len() && !is_continuation(s[i]))
}

/// The first code-point boundary at or after `j`.
pub open spec fn boundary_from(s: Seq<u8>, j: int) -> int
    decreases s.len() - j,
{
    if j >= s.len() || is_char_boundary(s, j) {
        if j >= s.len() { s.len() as int } else { j }
    } else {
        boundary_from(s, j + 1)
    }
}

/// The smallest code-point boundary after offset `i`, if `i` is before the end.
pub open spec fn next_boundary(s: Seq<u8>, i: int) -> Option<int> {
    if 0 <= i < s.len() {
        Some(boundary_from(s, i + 1))
    } else {
        None
    }
}

pub(crate) proof fn lemma_valid_up_to_from_bounds(s: Seq<u8>, i: int)
    requires
        0 <= i <= s.len(),
    ensures
        i <= valid_up_to_from(s, i) <= s.len(),
    decreases s.len() - i,
{
    if i < s.len() && char_width_at(s, i) != 0 {
        lemma_valid_up_to_from_bounds(s, i + char_width_at(s, i));
    }
}

/// The longest valid prefix lies within the string.
pub proof fn lemma_valid_prefix_len_bounds(s: Seq<u8>)
    ensures
        0 <= valid_prefix_len(s) <= s.len(),
{
    lemma_valid_up_to_from_bounds(s, 0);
}

/// Decoding from `i` within the longest valid prefix of `s` reaches the prefix's
/// end in the prefix alone too.
pub proof fn lemma_prefix_decodes(s: Seq<u8>, i: int)
    requires
        0 <= i <= valid_prefix_len(s),
        valid_up_to_from(s, i) == valid_prefix_len(s),
    ensures
        valid_up_to_from(s.subrange(0, valid_prefix_len(s)), i) == valid_prefix_len(s),
    decreases s.len() - i,
{
    lemma_valid_prefix_len_bounds(s);
    let n = valid_prefix_len(s);
    let p = s.subrange(0, n);
    if i < n {
        let w = char_width_at(s, i);
        lemma_valid_up_to_from_bounds(s, i + w);
        assert(char_width_at(p, i) == w);
        lemma_prefix_decodes(s, i + w);
    }
}

/// A width-`w` character at `i` occupies exactly the bytes `i .. i + w`.
pub proof fn lemma_width_of_slice(s: Seq<u8>, i: int)
    requires
        0 <= i < s.len(),
        char_width_at(s, i) > 0,
    ensures
        char_width_at(s.subrange(i, i + char_width_at(s, i)), 0) == char_width_at(s, i),
{
}

/// Where the rest of `s` from `i` decodes, the next boundary after `i` ends the
/// character that starts at `i`.
pub proof fn lemma_next_boundary_is_width(s: Seq<u8>, i: int)
    requires
        0 <= i < s.len(),
        valid_up_to_from(s, i) == s.len(),
    ensures
        char_width_at(s, i) > 0,
        i + char_width_at(s, i) <= s.len(),
        valid_up_to_from(s, i + char_width_at(s, i)) == s.len(),
        next_boundary(s, i) == Some(i + char_width_at(s, i)),
{
    let w = char_width_at(s, i);
    let e = i + w;
    if e < s.len() {
        lemma_valid_up_to_from_bounds(s, e);
        assert(char_width_at(s, e) > 0);
        assert(!is_continuation(s[e]));
    }
    assert(boundary_from(s, e) == e);
    if w >= 4 {
        assert(boundary_from(s, i + 3) == e);
    }
    if w >= 3 {
        assert(boundary_from(s, i + 2) == e);
    }
    if w >= 2 {
        assert(boundary_from(s, i + 1) == e);
    }
}

fn char_width(s: &[u8], i: usize) -> (w: usize)
    requires
        i < s@.len(),
    ensures
        w == char_width_at(s@, i as int),
        i + w <= s@.len(),
{
    let n = s.len();
    let b0 = s[i];
    if b0 <= 0x7F {
        1
    } else if 0xC2 <= b0 && b0 <= 0xDF {
        if n - i > 1 && 0x80 <= s[i + 1] && s[i + 1] <= 0xBF {
            2
        } else {
            0
        }
    } else if 0xE0 <= b0 && b0 <= 0xEF {
        let lo: u8 = if b0 == 0xE0 { 0xA0 } else { 0x80 };
        let hi: u8 = if b0 == 0xED { 0x9F } else { 0xBF };
        if n - i > 2 && lo <= s[i + 1] && s[i + 1] <= hi && 0x80 <= s[i + 2] && s[i + 2] <= 0xBF {
            3
        } else {
            0
        }
    } else if 0xF0 <= b0 && b0 <= 0xF4 {
        let lo: u8 = if b0 == 0xF0 { 0x90 } else { 0x80 };
        let hi: u8 = if b0 == 0xF4 { 0x8F } else { 0xBF };
        if n - i > 3 && lo <= s[i + 1] && s[i + 1] <= hi && 0x80 <= s[i + 2] && s[i + 2] <= 0xBF
            && 0x80 <= s[i + 3] && s[i + 3] <= 0xBF {
            4
        } else {
            0
        }
    } else {
        0
    }
}

/// Length of the longest prefix of `s` that decodes as UTF-8 text.
pub fn valid_up_to(s: &[u8]) -> (r: usize)
    ensures
        r == valid_prefix_len(s@),
{
    let mut i: usize = 0;
    while i < s.len()
        invariant
            i <= s@.len(),
            valid_up_to_from(s@, i as int) == valid_prefix_len(s@),
        decreases s@.len() - i,
    {
        let w = char_width(s, i);
        if w == 0 {
            return i;
        }
        i = i + w;
    }
    i
}

/// Splits `b` into its longest leading UTF-8 text and, where that is not all of
/// `b`, the bytes that follow it.
pub fn split_nonutf8_once(b: &[u8]) -> (r: (&[u8], Option<&[u8]>))
    ensures
        r.0@ == b@.subrange(0, valid_prefix_len(b@)),
        is_text(b@) ==> r.1 is None,
        !is_text(b@) ==> r.1 is Some && r.1->0@ == b@.subrange(valid_prefix_len(b@), b@.len() as int),
{
    let n = valid_up_to(b);
    proof {
        lemma_valid_prefix_len_bounds(b@);
    }
    if n == b.len() {
        proof {
            assert(b@.subrange(0, n as int) =~= b@);
        }
        (b, None)
    } else {
        let (valid, after_valid) = b.split_at(n);
        (valid, Some(after_valid))
    }
}

/// The smallest code-point boundary of `s` after `curr_boundary`, or `None` when
/// `curr_boundary` is at or past the end.
pub fn ceil_char_boundary(s: &[u8], curr_boundary: usize) -> (r: Option<usize>)
    ensures
        r matches Some(j) ==> next_boundary(s@, curr_boundary as int) == Some(j as int),
        r is None ==> next_boundary(s@, curr_boundary as int) is None,
        r is Some <==> curr_boundary < s@.len(),
        r matches Some(j) ==> curr_boundary < j <= s@.len() && is_char_boundary(s@, j as int),
        r matches Some(j) ==> forall|k: int|
            curr_boundary < k < j ==> !is_char_boundary(s@, k),
{
    if curr_boundary >= s.len() {
        return None;
    }
    let mut j: usize = curr_boundary + 1;
    while j < s.len() && 0x80 <= s[j] && s[j] <= 0xBF
        invariant
            curr_boundary < j <= s@.len(),
            boundary_from(s@, j as int) == boundary_from(s@, curr_boundary + 1),
            forall|k: int| curr_boundary < k < j ==> !is_char_boundary(s@, k),
        decreases s@.len() - j,
    {
        j = j + 1;
    }
    Some(j)
}

} // verus!
