//! Scanning of source text, byte by byte.
//!
//! A source is a sequence of bytes, cut into lines at each line feed. Inside a line, tokens are
//! the maximal runs of bytes that are not white space. Every position that this module hands out
//! lies on a character boundary of a UTF-8 text, which the lemmas at the end establish.

use vstd::prelude::*;
use vstd::string::StringSliceAdditionalSpecFns;
use vstd::utf8::*;

verus! {

/// The byte that ends a line.
pub const LINE_FEED: u8 = 10;

/// The byte that opens a comment line.
pub const HASH: u8 = 35;

/// White space inside a line: space, tab, vertical tab, form feed and carriage return.
pub open spec fn is_blank(b: u8) -> bool {
    b == 32 || b == 9 || b == 11 || b == 12 || b == 13
}

/// The end of the line that holds `from`: the first line feed at or after `from`,
/// or the end of the source.
pub open spec fn line_end(s: Seq<u8>, from: int) -> int
    decreases s.len() - from,
{
    if 0 <= from < s.len() && s[from] != LINE_FEED {
        line_end(s, from + 1)
    } else {
        from
    }
}

/// The first position in `[from, end)` that holds no white space, or `end`.
pub open spec fn skip_blanks(s: Seq<u8>, from: int, end: int) -> int
    decreases end - from,
{
    if 0 <= from < end && end <= s.len() && is_blank(s[from]) {
        skip_blanks(s, from + 1, end)
    } else {
        from
    }
}

/// The first position in `[from, end)` that holds white space, or `end`.
pub open spec fn token_end(s: Seq<u8>, from: int, end: int) -> int
    decreases end - from,
{
    if 0 <= from < end && end <= s.len() && !is_blank(s[from]) {
        token_end(s, from + 1, end)
    } else {
        from
    }
}

/// `[from, end)` holds white space only.
pub open spec fn all_blank(s: Seq<u8>, from: int, end: int) -> bool {
    skip_blanks(s, from, end) >= end
}

/// `at` begins a line: it is the start of the source or follows a line feed.
pub open spec fn is_line_start(s: Seq<u8>, at: int) -> bool {
    at == 0 || (0 < at <= s.len() && s[at - 1] == LINE_FEED)
}

/// The start of the line that holds `at`: the position behind the last line feed before
/// `at`, or the start of the source.
pub open spec fn line_start(s: Seq<u8>, at: int) -> int
    decreases at,
{
    if 0 < at <= s.len() && s[at - 1] != LINE_FEED {
        line_start(s, at - 1)
    } else {
        at
    }
}

/// The end of `[from, to)` once the white space at its end is taken off.
pub open spec fn trimmed_end(s: Seq<u8>, from: int, to: int) -> int
    decreases to - from,
{
    if 0 <= from < to <= s.len() && is_blank(s[to - 1]) {
        trimmed_end(s, from, to - 1)
    } else {
        to
    }
}

pub proof fn lemma_line_start_bounds(s: Seq<u8>, at: int)
    requires
        0 <= at <= s.len(),
    ensures
        0 <= line_start(s, at) <= at,
        is_line_start(s, line_start(s, at)),
        forall|k: int| line_start(s, at) <= k < at ==> s[k] != LINE_FEED,
    decreases at,
{
    if 0 < at && s[at - 1] != LINE_FEED {
        lemma_line_start_bounds(s, at - 1);
    }
}

pub proof fn lemma_trimmed_end_bounds(s: Seq<u8>, from: int, to: int)
    requires
        0 <= from <= to <= s.len(),
    ensures
        from <= trimmed_end(s, from, to) <= to,
        trimmed_end(s, from, to) < to ==> is_blank(s[trimmed_end(s, from, to)]),
    decreases to - from,
{
    if from < to && is_blank(s[to - 1]) {
        lemma_trimmed_end_bounds(s, from, to - 1);
    }
}

pub proof fn lemma_line_end_bounds(s: Seq<u8>, from: int)
    requires
        0 <= from <= s.len(),
    ensures
        from <= line_end(s, from) <= s.len(),
        line_end(s, from) < s.len() ==> s[line_end(s, from)] == LINE_FEED,
        forall|k: int| from <= k < line_end(s, from) ==> s[k] != LINE_FEED,
    decreases s.len() - from,
{
    if from < s.len() && s[from] != LINE_FEED {
        lemma_line_end_bounds(s, from + 1);
    }
}

pub proof fn lemma_skip_blanks_bounds(s: Seq<u8>, from: int, end: int)
    requires
        0 <= from <= end <= s.len(),
    ensures
        from <= skip_blanks(s, from, end) <= end,
        skip_blanks(s, from, end) < end ==> !is_blank(s[skip_blanks(s, from, end)]),
        forall|k: int| from <= k < skip_blanks(s, from, end) ==> is_blank(s[k]),
    decreases end - from,
{
    if from < end && is_blank(s[from]) {
        lemma_skip_blanks_bounds(s, from + 1, end);
    }
}

pub proof fn lemma_token_end_bounds(s: Seq<u8>, from: int, end: int)
    requires
        0 <= from <= end <= s.len(),
    ensures
        from <= token_end(s, from, end) <= end,
        token_end(s, from, end) < end ==> is_blank(s[token_end(s, from, end)]),
        forall|k: int| from <= k < token_end(s, from, end) ==> !is_blank(s[k]),
        from < end && !is_blank(s[from]) ==> from < token_end(s, from, end),
    decreases end - from,
{
    if from < end && !is_blank(s[from]) {
        lemma_token_end_bounds(s, from + 1, end);
    }
}

pub fn is_blank_byte(b: u8) -> (r: bool)
    ensures
        r == is_blank(b),
{
    b == 32 || b == 9 || b == 11 || b == 12 || b == 13
}

pub fn find_line_end(s: &[u8], from: usize) -> (r: usize)
    requires
        from <= s@.len(),
    ensures
        r == line_end(s@, from as int),
        from <= r <= s@.len(),
{
    let mut at: usize = from;
    while at < s.len() && s[at] != LINE_FEED
        invariant
            from <= at <= s@.len(),
            line_end(s@, from as int) == line_end(s@, at as int),
        decreases s@.len() - at,
    {
        at = at + 1;
    }
    at
}

pub fn find_line_start(s: &[u8], at: usize) -> (r: usize)
    requires
        at <= s@.len(),
    ensures
        r == line_start(s@, at as int),
        r <= at,
{
    let mut start: usize = at;
    while start > 0 && s[start - 1] != LINE_FEED
        invariant
            start <= at <= s@.len(),
            line_start(s@, at as int) == line_start(s@, start as int),
        decreases start,
    {
        start = start - 1;
    }
    start
}

pub fn find_trimmed_end(s: &[u8], from: usize, to: usize) -> (r: usize)
    requires
        from <= to <= s@.len(),
    ensures
        r == trimmed_end(s@, from as int, to as int),
        from <= r <= to,
{
    let mut end: usize = to;
    while from < end && is_blank_byte(s[end - 1])
        invariant
            from <= end <= to <= s@.len(),
            trimmed_end(s@, from as int, to as int) == trimmed_end(s@, from as int, end as int),
        decreases end,
    {
        end = end - 1;
    }
    end
}

pub fn find_token_start(s: &[u8], from: usize, end: usize) -> (r: usize)
    requires
        from <= end <= s@.len(),
    ensures
        r == skip_blanks(s@, from as int, end as int),
        from <= r <= end,
{
    let mut at: usize = from;
    while at < end && is_blank_byte(s[at])
        invariant
            from <= at <= end <= s@.len(),
            skip_blanks(s@, from as int, end as int) == skip_blanks(s@, at as int, end as int),
        decreases end - at,
    {
        at = at + 1;
    }
    at
}

pub fn find_token_end(s: &[u8], from: usize, end: usize) -> (r: usize)
    requires
        from <= end <= s@.len(),
    ensures
        r == token_end(s@, from as int, end as int),
        from <= r <= end,
{
    let mut at: usize = from;
    while at < end && !is_blank_byte(s[at])
        invariant
            from <= at <= end <= s@.len(),
            token_end(s@, from as int, end as int) == token_end(s@, at as int, end as int),
        decreases end - at,
    {
        at = at + 1;
    }
    at
}

/// In a UTF-8 text, the position behind a one-byte character is a character boundary.
pub proof fn lemma_boundary_after_ascii(s: Seq<u8>, at: int)
    requires
        valid_utf8(s),
        0 <= at < s.len(),
        s[at] < 0x80,
    ensures
        is_char_boundary(s, at),
        is_char_boundary(s, at + 1),
    decreases s.len(),
{
    is_char_boundary_iff_not_is_continuation_byte(s, at);
    assert(!is_continuation_byte(s[at])) by {
        utf8_byte_ranges_bitwise(s[at]);
    }
    reveal_with_fuel(is_char_boundary, 2);
    reveal_with_fuel(valid_utf8, 2);
    if at == 0 {
        assert(is_leading_byte_width_1(s[0])) by {
            utf8_byte_ranges_bitwise(s[0]);
        }
        assert(length_of_first_scalar(s) == 1);
    } else {
        let width = length_of_first_scalar(s);
        let rest = pop_first_scalar(s);
        assert(at >= width);
        assert(rest[at - width] == s[at]);
        lemma_boundary_after_ascii(rest, at - width);
    }
}

/// In a UTF-8 text, a position is a character boundary when it is one of the two ends of the
/// text, or when the byte before it or the byte at it is a one-byte character.
pub proof fn lemma_boundary_beside_ascii(s: Seq<u8>, at: int)
    requires
        valid_utf8(s),
        0 <= at <= s.len(),
        at == 0 || at == s.len() || s[at - 1] < 0x80 || s[at] < 0x80,
    ensures
        is_char_boundary(s, at),
{
    is_char_boundary_start_end_of_seq(s);
    if at == 0 || at == s.len() {
    } else if s[at - 1] < 0x80 {
        lemma_boundary_after_ascii(s, at - 1);
    } else {
        lemma_boundary_after_ascii(s, at);
    }
}

/// A character boundary of a text that lies inside a prefix of it, cut at a boundary,
/// is a boundary of the prefix.
pub proof fn lemma_boundary_in_prefix(s: Seq<u8>, at: int, cut: int)
    requires
        valid_utf8(s),
        0 <= at <= cut <= s.len(),
        is_char_boundary(s, at),
        is_char_boundary(s, cut),
    ensures
        valid_utf8(s.subrange(0, cut)),
        is_char_boundary(s.subrange(0, cut), at),
{
    valid_utf8_split(s, cut);
    let head = s.subrange(0, cut);
    is_char_boundary_start_end_of_seq(head);
    if at < cut {
        is_char_boundary_iff_not_is_continuation_byte(s, at);
        is_char_boundary_iff_not_is_continuation_byte(head, at);
    }
}

/// The text between two character boundaries of `source`.
pub fn slice<'a>(source: &'a str, from: usize, to: usize) -> (r: &'a str)
    requires
        from <= to <= source.spec_bytes().len(),
        is_char_boundary(source.spec_bytes(), from as int),
        is_char_boundary(source.spec_bytes(), to as int),
    ensures
        r.spec_bytes() == source.spec_bytes().subrange(from as int, to as int),
        r@ == decode_utf8(source.spec_bytes().subrange(from as int, to as int)),
{
    proof {
        encode_utf8_valid_utf8(source@);
        lemma_boundary_in_prefix(source.spec_bytes(), from as int, to as int);
    }
    let (head, _) = source.split_at(to);
    let (_, piece) = head.split_at(from);
    proof {
        assert(piece.spec_bytes() =~= source.spec_bytes().subrange(from as int, to as int));
        encode_utf8_decode_utf8(piece@);
    }
    piece
}

/// The text between two character boundaries of `source`, as a string of its own.
pub fn slice_text(source: &str, from: usize, to: usize) -> (r: String)
    requires
        from <= to <= source.spec_bytes().len(),
        is_char_boundary(source.spec_bytes(), from as int),
        is_char_boundary(source.spec_bytes(), to as int),
    ensures
        encode_utf8(r@) == source.spec_bytes().subrange(from as int, to as int),
        r@ == decode_utf8(source.spec_bytes().subrange(from as int, to as int)),
{
    slice(source, from, to).to_owned()
}

} // verus!
