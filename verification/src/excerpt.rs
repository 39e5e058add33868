//! Rendering of a diagnostic as an excerpt of the source.
//!
//! The excerpt shows the line that the diagnostic is about, with a marker under the bytes
//! `[start, end)` and a message behind the marker. Above it stand up to two lines that come
//! before it in the source, and below it up to two that come after it. Blank lines are left
//! out, and they are not counted either: the numbers in front of the lines count the lines
//! that are not blank.
//!
//! ```text
//! 1. LDC 5
//! 2. LDA abc
//!        ^-- Invalid operand, expected a number
//! 3. STP
//! ```

use crate::parser::{Diagnostic, DiagnosticType, ParseResult};
use crate::text::{
    all_blank, find_line_end, find_line_start, find_token_start, find_trimmed_end, is_line_start,
    lemma_boundary_beside_ascii, lemma_line_end_bounds, lemma_line_start_bounds,
    lemma_skip_blanks_bounds, lemma_trimmed_end_bounds, line_end, line_start, slice, trimmed_end,
    LINE_FEED,
};
use vstd::prelude::*;
use vstd::string::{StringExecFns, StringSliceAdditionalSpecFns};
use vstd::utf8::{decode_utf8, encode_utf8, encode_utf8_valid_utf8};

verus! {

/// The bytes `[start, end)` of a source.
#[derive(Clone, Copy, Debug, PartialEq, Eq, Structural)]
pub struct Span {
    pub start: usize,
    pub end: usize,
}

/// The lines that begin in `[from, to)` and are not blank, in their order. `from` begins a
/// line.
pub open spec fn nonblank_lines(s: Seq<u8>, from: int, to: int) -> Seq<Span>
    decreases to - from,
{
    if 0 <= from < to <= s.len() {
        let end = line_end(s, from);
        let here = if all_blank(s, from, end) {
            Seq::empty()
        } else {
            seq![Span { start: from as usize, end: end as usize }]
        };
        if from <= end < to {
            here + nonblank_lines(s, end + 1, to)
        } else {
            here
        }
    } else {
        Seq::empty()
    }
}

/// A span is a whole line of `s`, and the line is not blank.
pub open spec fn is_nonblank_line(s: Seq<u8>, line: Span) -> bool {
    &&& line.start < line.end <= s.len()
    &&& is_line_start(s, line.start as int)
    &&& line.end == line_end(s, line.start as int)
    &&& !all_blank(s, line.start as int, line.end as int)
}

/// The last `count` items of a list, or all of them if there are fewer.
pub open spec fn last_of<T>(count: nat, list: Seq<T>) -> Seq<T> {
    if list.len() > count {
        list.subrange(list.len() - count, list.len() as int)
    } else {
        list
    }
}

/// The first `count` items of a list, or all of them if there are fewer.
pub open spec fn first_of<T>(count: nat, list: Seq<T>) -> Seq<T> {
    if list.len() > count {
        list.subrange(0, count as int)
    } else {
        list
    }
}

/// The text that the bytes `[from, to)` encode.
pub open spec fn text(s: Seq<u8>, from: int, to: int) -> Seq<char> {
    decode_utf8(s.subrange(from, to))
}

pub open spec fn digit(d: nat) -> char {
    if d == 0 {
        '0'
    } else if d == 1 {
        '1'
    } else if d == 2 {
        '2'
    } else if d == 3 {
        '3'
    } else if d == 4 {
        '4'
    } else if d == 5 {
        '5'
    } else if d == 6 {
        '6'
    } else if d == 7 {
        '7'
    } else if d == 8 {
        '8'
    } else {
        '9'
    }
}

/// A number in decimal digits.
pub open spec fn decimal(n: nat) -> Seq<char>
    decreases n,
{
    if n < 10 {
        seq![digit(n)]
    } else {
        decimal(n / 10).push(digit(n % 10))
    }
}

pub open spec fn repeated(c: char, count: nat) -> Seq<char> {
    Seq::new(count, |i: int| c)
}

/// A line of the excerpt: its number, a dot, a space and its text.
pub open spec fn numbered(number: nat, text: Seq<char>) -> Seq<char> {
    decimal(number) + seq!['.', ' '] + text
}

/// The line under the line `number`: a caret under the byte `column` of that line, dashes
/// under the rest of the `width` bytes, and the message.
pub open spec fn marker(number: nat, column: nat, width: nat, message: Seq<char>) -> Seq<char> {
    let dashes = if width > 1 {
        (width - 1) as nat
    } else {
        0
    };
    repeated(' ', decimal(number).len() + 2 + column) + seq!['^'] + repeated('-', dashes)
        + seq![' '] + message
}

/// The lines, with a line feed between each two.
pub open spec fn join_lines(lines: Seq<Seq<char>>) -> Seq<char>
    decreases lines.len(),
{
    if lines.len() == 0 {
        Seq::empty()
    } else if lines.len() == 1 {
        lines[0]
    } else {
        join_lines(lines.drop_last()) + seq!['\n'] + lines.last()
    }
}

/// The lines of the excerpt that stand above the marked line, numbered from `first`.
pub open spec fn lines_above(s: Seq<u8>, kept: Seq<Span>, first: nat) -> Seq<Seq<char>> {
    Seq::new(
        kept.len(),
        |j: int| numbered((first + j) as nat, text(s, kept[j].start as int, kept[j].end as int)),
    )
}

/// The lines of the excerpt that stand below the marker, numbered from `first`. The last of
/// them is the last of the excerpt, and stands without the white space at its end.
pub open spec fn lines_below(s: Seq<u8>, kept: Seq<Span>, first: nat) -> Seq<Seq<char>> {
    Seq::new(
        kept.len(),
        |j: int|
            numbered(
                (first + j) as nat,
                text(
                    s,
                    kept[j].start as int,
                    if j == kept.len() - 1 {
                        trimmed_end(s, kept[j].start as int, kept[j].end as int)
                    } else {
                        kept[j].end as int
                    },
                ),
            ),
    )
}

/// The lines of the excerpt for the bytes `[start, end)` of `s`.
pub open spec fn excerpt(s: Seq<u8>, start: int, end: int, message: Seq<char>) -> Seq<Seq<char>> {
    let first = line_start(s, start);
    let last = line_end(s, start);
    let above = nonblank_lines(s, 0, first);
    let below = nonblank_lines(s, last + 1, s.len() as int);
    let kept_above = last_of(2, above);
    let number = above.len() + 1;
    lines_above(s, kept_above, (number - kept_above.len()) as nat) + seq![
        numbered(number, text(s, first, last)),
        marker(number, (start - first) as nat, (end - start) as nat, message),
    ] + lines_below(s, first_of(2, below), number + 1)
}

/// The excerpt for the bytes `[start, end)` of `s`, as one text.
pub open spec fn annotation(s: Seq<u8>, start: int, end: int, message: Seq<char>) -> Seq<char> {
    join_lines(excerpt(s, start, end, message))
}

/// What the excerpt says of each type of diagnostic.
pub open spec fn message_of(ty: DiagnosticType) -> Seq<char> {
    match ty {
        DiagnosticType::InvalidOpcode => "Invalid opcode"@,
        DiagnosticType::MissingOperand => "Missing operand"@,
        DiagnosticType::InvalidOperand => "Invalid operand, expected a number"@,
        DiagnosticType::TooManyOperands => "Only one operand expected"@,
        DiagnosticType::MissingStp => "Program must contain at least one STP instruction"@,
    }
}

/// Every line that `nonblank_lines` gives is a whole line that is not blank, and two such
/// lines take up three bytes at least.
pub proof fn lemma_nonblank_lines(s: Seq<u8>, from: int, to: int)
    requires
        0 <= from <= to <= s.len() <= usize::MAX,
        is_line_start(s, from),
    ensures
        forall|j: int|
            0 <= j < nonblank_lines(s, from, to).len() ==> is_nonblank_line(
                s,
                #[trigger] nonblank_lines(s, from, to)[j],
            ),
        2 * nonblank_lines(s, from, to).len() <= to - from + 1,
    decreases to - from,
{
    if from < to {
        let end = line_end(s, from);
        lemma_line_end_bounds(s, from);
        lemma_skip_blanks_bounds(s, from, end);
        let here = if all_blank(s, from, end) {
            Seq::<Span>::empty()
        } else {
            seq![Span { start: from as usize, end: end as usize }]
        };
        let rest = if end < to {
            nonblank_lines(s, end + 1, to)
        } else {
            Seq::<Span>::empty()
        };
        if end < to {
            lemma_nonblank_lines(s, end + 1, to);
        }
        assert(nonblank_lines(s, from, to) =~= here + rest);
        assert forall|j: int| 0 <= j < nonblank_lines(s, from, to).len() implies is_nonblank_line(
            s,
            #[trigger] nonblank_lines(s, from, to)[j],
        ) by {
            if j < here.len() {
                assert(nonblank_lines(s, from, to)[j] == here[0]);
            } else {
                assert(nonblank_lines(s, from, to)[j] == rest[j - here.len()]);
            }
        }
    }
}

pub proof fn lemma_join_lines_push(lines: Seq<Seq<char>>, line: Seq<char>)
    ensures
        join_lines(lines.push(line)) == if lines.len() == 0 {
            line
        } else {
            join_lines(lines) + seq!['\n'] + line
        },
{
    assert(lines.push(line).drop_last() =~= lines);
}

/// The last `n` items of a list of lines.
fn last_n(n: usize, list: &Vec<Span>) -> (r: Vec<Span>)
    ensures
        r@ == last_of(n as nat, list@),
{
    let mut kept: Vec<Span> = Vec::new();
    let first: usize = if list.len() > n {
        list.len() - n
    } else {
        0
    };
    let mut at: usize = first;
    while at < list.len()
        invariant
            first <= at <= list@.len(),
            kept@ == list@.subrange(first as int, at as int),
        decreases list@.len() - at,
    {
        kept.push(list[at]);
        at = at + 1;
        assert(kept@ =~= list@.subrange(first as int, at as int));
    }
    assert(list@.subrange(0, list@.len() as int) =~= list@);
    kept
}

/// The first `n` items of a list of lines.
fn first_n(n: usize, list: &Vec<Span>) -> (r: Vec<Span>)
    ensures
        r@ == first_of(n as nat, list@),
{
    let mut kept: Vec<Span> = Vec::new();
    let count: usize = if list.len() > n {
        n
    } else {
        list.len()
    };
    let mut at: usize = 0;
    while at < count
        invariant
            at <= count <= list@.len(),
            kept@ == list@.subrange(0, at as int),
        decreases count - at,
    {
        kept.push(list[at]);
        at = at + 1;
        assert(kept@ =~= list@.subrange(0, at as int));
    }
    assert(list@.subrange(0, list@.len() as int) =~= list@);
    kept
}

/// The lines of `s` that begin in `[from, to)` and are not blank.
pub fn collect_lines(s: &[u8], from: usize, to: usize) -> (r: Vec<Span>)
    requires
        from <= to <= s@.len(),
    ensures
        r@ == nonblank_lines(s@, from as int, to as int),
{
    let mut lines: Vec<Span> = Vec::new();
    let mut at: usize = from;
    assert(lines@ + nonblank_lines(s@, at as int, to as int) =~= nonblank_lines(
        s@,
        from as int,
        to as int,
    ));
    while at < to
        invariant
            from <= at <= to <= s@.len(),
            lines@ + nonblank_lines(s@, at as int, to as int) == nonblank_lines(
                s@,
                from as int,
                to as int,
            ),
        decreases to - at,
    {
        let end = find_line_end(s, at);
        let ghost before = lines@;
        let ghost here = if all_blank(s@, at as int, end as int) {
            Seq::<Span>::empty()
        } else {
            seq![Span { start: at, end }]
        };
        if find_token_start(s, at, end) < end {
            lines.push(Span { start: at, end });
        }
        assert(lines@ =~= before + here);
        if end < to {
            assert(before + (here + nonblank_lines(s@, end + 1, to as int)) =~= (before + here)
                + nonblank_lines(s@, end + 1, to as int));
            at = end + 1;
        } else {
            assert((before + here) + Seq::<Span>::empty() =~= before + here);
            at = to;
        }
    }
    assert(lines@ + Seq::<Span>::empty() =~= lines@);
    lines
}

fn digit_text(d: usize) -> (r: &'static str)
    requires
        d < 10,
    ensures
        r@ == seq![digit(d as nat)],
{
    proof {
        reveal_strlit("0");
        reveal_strlit("1");
        reveal_strlit("2");
        reveal_strlit("3");
        reveal_strlit("4");
        reveal_strlit("5");
        reveal_strlit("6");
        reveal_strlit("7");
        reveal_strlit("8");
        reveal_strlit("9");
    }
    let r = if d == 0 {
        "0"
    } else if d == 1 {
        "1"
    } else if d == 2 {
        "2"
    } else if d == 3 {
        "3"
    } else if d == 4 {
        "4"
    } else if d == 5 {
        "5"
    } else if d == 6 {
        "6"
    } else if d == 7 {
        "7"
    } else if d == 8 {
        "8"
    } else {
        "9"
    };
    assert(r@ =~= seq![digit(d as nat)]);
    r
}

/// Appends a number in decimal digits, and returns how many digits it has.
fn append_decimal(out: &mut String, n: usize) -> (digits: usize)
    ensures
        final(out)@ == old(out)@ + decimal(n as nat),
        digits == decimal(n as nat).len(),
        1 <= digits <= n + 1,
    decreases n,
{
    let digits = if n >= 10 {
        let higher = append_decimal(out, n / 10);
        higher + 1
    } else {
        1
    };
    out.append(digit_text(n % 10));
    proof {
        if n >= 10 {
            assert(out@ =~= old(out)@ + decimal((n / 10) as nat).push(digit((n % 10) as nat)));
        } else {
            assert(out@ =~= old(out)@ + seq![digit(n as nat)]);
        }
    }
    digits
}

/// Appends `count` times the one-character text `piece`.
fn append_repeated(out: &mut String, piece: &str, count: usize)
    requires
        piece@.len() == 1,
    ensures
        final(out)@ == old(out)@ + repeated(piece@[0], count as nat),
{
    let mut done: usize = 0;
    assert(out@ =~= old(out)@ + repeated(piece@[0], 0));
    while done < count
        invariant
            done <= count,
            piece@.len() == 1,
            out@ == old(out)@ + repeated(piece@[0], done as nat),
        decreases count - done,
    {
        out.append(piece);
        done = done + 1;
        assert(out@ =~= old(out)@ + repeated(piece@[0], done as nat));
    }
}

/// Appends a line of the excerpt: a line feed unless the line is the first, then the number,
/// a dot, a space, and the text of the bytes `[from, to)` of the source. Returns how many
/// digits the number has.
fn append_numbered(
    out: &mut String,
    first: bool,
    number: usize,
    source: &str,
    from: usize,
    to: usize,
) -> (digits: usize)
    requires
        from <= to <= source.spec_bytes().len(),
        is_line_start(source.spec_bytes(), from as int),
        to == source.spec_bytes().len() || source.spec_bytes()[to as int] < 0x80,
    ensures
        final(out)@ == old(out)@ + (if first {
            Seq::<char>::empty()
        } else {
            seq!['\n']
        }) + numbered(number as nat, text(source.spec_bytes(), from as int, to as int)),
        digits == decimal(number as nat).len(),
        digits <= number + 1,
{
    proof {
        reveal_strlit("\n");
        reveal_strlit(". ");
        encode_utf8_valid_utf8(source@);
        if from > 0 {
            assert(source.spec_bytes()[from - 1] == LINE_FEED);
        }
        lemma_boundary_beside_ascii(source.spec_bytes(), from as int);
        lemma_boundary_beside_ascii(source.spec_bytes(), to as int);
    }
    if !first {
        out.append("\n");
    }
    let ghost begun = out@;
    let digits = append_decimal(out, number);
    out.append(". ");
    out.append(slice(source, from, to));
    proof {
        assert(". "@ =~= seq!['.', ' ']);
        assert("\n"@ =~= seq!['\n']);
        let line = numbered(number as nat, text(source.spec_bytes(), from as int, to as int));
        assert(out@ =~= begun + line);
        if first {
            assert(begun =~= old(out)@ + Seq::<char>::empty());
        }
    }
    digits
}

/// Appends the marker line, with a line feed before it.
fn append_marker(out: &mut String, digits: usize, column: usize, width: usize, message: &str)
    ensures
        final(out)@ == old(out)@ + seq!['\n'] + repeated(' ', (digits + 2 + column) as nat)
            + seq!['^'] + repeated('-', if width > 1 {
            (width - 1) as nat
        } else {
            0
        }) + seq![' '] + message@,
{
    proof {
        reveal_strlit("\n");
        reveal_strlit(" ");
        reveal_strlit("^");
        reveal_strlit("-");
    }
    let dashes: usize = if width > 1 {
        width - 1
    } else {
        0
    };
    out.append("\n");
    append_repeated(out, " ", digits);
    append_repeated(out, " ", 2);
    append_repeated(out, " ", column);
    out.append("^");
    append_repeated(out, "-", dashes);
    out.append(" ");
    out.append(message);
    proof {
        assert(repeated(' ', digits as nat) + repeated(' ', 2) + repeated(' ', column as nat)
            =~= repeated(' ', (digits + 2 + column) as nat));
        assert("\n"@ =~= seq!['\n']);
        assert("^"@ =~= seq!['^']);
        assert(" "@ =~= seq![' ']);
        assert(out@ =~= old(out)@ + seq!['\n'] + repeated(' ', (digits + 2 + column) as nat)
            + seq!['^'] + repeated('-', dashes as nat) + seq![' '] + message@);
    }
}

/// A text with more lines behind it, each after a line feed.
pub open spec fn continued(base: Seq<char>, lines: Seq<Seq<char>>) -> Seq<char>
    decreases lines.len(),
{
    if lines.len() == 0 {
        base
    } else {
        continued(base, lines.drop_last()) + seq!['\n'] + lines.last()
    }
}

pub proof fn lemma_join_continued(top: Seq<Seq<char>>, tail: Seq<Seq<char>>)
    requires
        top.len() > 0,
    ensures
        join_lines(top + tail) == continued(join_lines(top), tail),
    decreases tail.len(),
{
    if tail.len() == 0 {
        assert(top + tail =~= top);
    } else {
        lemma_join_continued(top, tail.drop_last());
        assert((top + tail).drop_last() =~= top + tail.drop_last());
        assert((top + tail).last() == tail.last());
    }
}

/// The lines above the marked line, as one text.
fn render_above(source: &str, kept: &Vec<Span>, first: usize) -> (out: String)
    requires
        first + kept@.len() < usize::MAX,
        forall|k: int|
            0 <= k < kept@.len() ==> is_nonblank_line(source.spec_bytes(), #[trigger] kept@[k]),
    ensures
        out@ == join_lines(lines_above(source.spec_bytes(), kept@, first as nat)),
{
    let ghost s = source.spec_bytes();
    let ghost head = lines_above(s, kept@, first as nat);
    let mut out = String::new();
    let mut j: usize = 0;
    assert(head.subrange(0, 0) =~= Seq::<Seq<char>>::empty());
    while j < kept.len()
        invariant
            j <= kept@.len(),
            s == source.spec_bytes(),
            head == lines_above(s, kept@, first as nat),
            first + kept@.len() < usize::MAX,
            forall|k: int| 0 <= k < kept@.len() ==> is_nonblank_line(s, #[trigger] kept@[k]),
            out@ == join_lines(head.subrange(0, j as int)),
        decreases kept@.len() - j,
    {
        let line = kept[j];
        proof {
            assert(is_nonblank_line(s, kept@[j as int]));
            lemma_line_end_bounds(s, line.start as int);
            lemma_join_lines_push(head.subrange(0, j as int), head[j as int]);
            assert(head.subrange(0, j as int).push(head[j as int]) =~= head.subrange(
                0,
                j + 1,
            ));
        }
        let ghost before = out@;
        let _ = append_numbered(&mut out, j == 0, first + j, source, line.start, line.end);
        proof {
            if j == 0 {
                assert(before =~= Seq::<char>::empty());
                assert(out@ =~= head[0]);
            }
        }
        j = j + 1;
    }
    assert(head.subrange(0, head.len() as int) =~= head);
    out
}

/// Appends the lines below the marker.
fn append_below(out: &mut String, source: &str, kept: &Vec<Span>, first: usize)
    requires
        first + kept@.len() < usize::MAX,
        forall|k: int|
            0 <= k < kept@.len() ==> is_nonblank_line(source.spec_bytes(), #[trigger] kept@[k]),
    ensures
        final(out)@ == continued(
            old(out)@,
            lines_below(source.spec_bytes(), kept@, first as nat),
        ),
{
    let bytes = source.as_bytes();
    let ghost s = source.spec_bytes();
    let ghost tail = lines_below(s, kept@, first as nat);
    let mut j: usize = 0;
    assert(tail.subrange(0, 0) =~= Seq::<Seq<char>>::empty());
    while j < kept.len()
        invariant
            j <= kept@.len(),
            s == source.spec_bytes(),
            bytes@ == s,
            tail == lines_below(s, kept@, first as nat),
            first + kept@.len() < usize::MAX,
            forall|k: int| 0 <= k < kept@.len() ==> is_nonblank_line(s, #[trigger] kept@[k]),
            out@ == continued(old(out)@, tail.subrange(0, j as int)),
        decreases kept@.len() - j,
    {
        let line = kept[j];
        proof {
            assert(is_nonblank_line(s, kept@[j as int]));
            lemma_line_end_bounds(s, line.start as int);
            lemma_trimmed_end_bounds(s, line.start as int, line.end as int);
        }
        let to = if j + 1 == kept.len() {
            find_trimmed_end(bytes, line.start, line.end)
        } else {
            line.end
        };
        proof {
            let longer = tail.subrange(0, j + 1);
            assert(longer.drop_last() =~= tail.subrange(0, j as int));
            assert(longer.last() == tail[j as int]);
        }
        let _ = append_numbered(out, false, first + j, source, line.start, to);
        j = j + 1;
    }
    assert(tail.subrange(0, tail.len() as int) =~= tail);
}

/// The excerpt is the lines above, the marked line, the marker and the lines below, each
/// after a line feed but the first.
pub proof fn lemma_annotation(
    s: Seq<u8>,
    start: int,
    end: int,
    message: Seq<char>,
    above: Seq<char>,
    marked: Seq<char>,
    mark: Seq<char>,
)
    requires
        above == join_lines(
            lines_above(
                s,
                last_of(2, nonblank_lines(s, 0, line_start(s, start))),
                (nonblank_lines(s, 0, line_start(s, start)).len() + 1 - last_of(
                    2,
                    nonblank_lines(s, 0, line_start(s, start)),
                ).len()) as nat,
            ),
        ),
        marked == numbered(
            nonblank_lines(s, 0, line_start(s, start)).len() + 1,
            text(s, line_start(s, start), line_end(s, start)),
        ),
        mark == marker(
            nonblank_lines(s, 0, line_start(s, start)).len() + 1,
            (start - line_start(s, start)) as nat,
            (end - start) as nat,
            message,
        ),
    ensures
        annotation(s, start, end, message) == continued(
            (if nonblank_lines(s, 0, line_start(s, start)).len() == 0 {
                marked
            } else {
                above + seq!['\n'] + marked
            }) + seq!['\n'] + mark,
            lines_below(
                s,
                first_of(2, nonblank_lines(s, line_end(s, start) + 1, s.len() as int)),
                nonblank_lines(s, 0, line_start(s, start)).len() + 2,
            ),
        ),
{
    let all = nonblank_lines(s, 0, line_start(s, start));
    let number = all.len() + 1;
    let head = lines_above(s, last_of(2, all), (number - last_of(2, all).len()) as nat);
    let tail = lines_below(
        s,
        first_of(2, nonblank_lines(s, line_end(s, start) + 1, s.len() as int)),
        number + 1,
    );
    let top = head.push(marked).push(mark);
    lemma_join_lines_push(head, marked);
    lemma_join_lines_push(head.push(marked), mark);
    lemma_join_continued(top, tail);
    assert(top + tail =~= head + seq![marked, mark] + tail);
    assert(head.len() == 0 <==> all.len() == 0);
}

/// The lines around a position of the source that an excerpt shows.
struct Around {
    /// The start of the line that holds the position.
    first: usize,
    /// The end of that line.
    last: usize,
    /// The number of that line among the lines that are not blank.
    number: usize,
    above: Vec<Span>,
    below: Vec<Span>,
}

/// Finds the line that holds `start`, and up to two lines on each side of it.
fn look_around(bytes: &[u8], start: usize) -> (r: Around)
    requires
        start <= bytes@.len(),
    ensures
        r.first == line_start(bytes@, start as int),
        r.last == line_end(bytes@, start as int),
        r.first <= start <= r.last <= bytes@.len(),
        is_line_start(bytes@, r.first as int),
        r.last == bytes@.len() || bytes@[r.last as int] == LINE_FEED,
        r.number == nonblank_lines(bytes@, 0, r.first as int).len() + 1,
        r.above@ == last_of(2, nonblank_lines(bytes@, 0, r.first as int)),
        r.below@ == first_of(2, nonblank_lines(bytes@, r.last + 1, bytes@.len() as int)),
        r.number + 3 < usize::MAX,
        r.above@.len() < r.number,
        r.below@.len() <= 2,
        forall|k: int|
            0 <= k < r.above@.len() ==> is_nonblank_line(bytes@, #[trigger] r.above@[k]),
        forall|k: int|
            0 <= k < r.below@.len() ==> is_nonblank_line(bytes@, #[trigger] r.below@[k]),
{
    let ghost s = bytes@;
    let first = find_line_start(bytes, start);
    let last = find_line_end(bytes, start);
    let above = collect_lines(bytes, 0, first);
    let below = if last < bytes.len() {
        collect_lines(bytes, last + 1, bytes.len())
    } else {
        Vec::new()
    };
    proof {
        lemma_line_start_bounds(s, start as int);
        lemma_line_end_bounds(s, start as int);
        lemma_nonblank_lines(s, 0, first as int);
        if last < s.len() {
            lemma_nonblank_lines(s, last + 1, s.len() as int);
        }
    }
    let kept_above = last_n(2, &above);
    let kept_below = first_n(2, &below);
    let number: usize = above.len() + 1;
    Around { first, last, number, above: kept_above, below: kept_below }
}

/// Renders the excerpt for the bytes `[start, end)` of the source, with `message` behind the
/// marker.
pub fn annotate_range(source: &str, start: usize, end: usize, message: &str) -> (r: String)
    requires
        start <= end,
        start <= source.spec_bytes().len(),
    ensures
        r@ == annotation(source.spec_bytes(), start as int, end as int, message@),
{
    let ghost s = source.spec_bytes();
    let around = look_around(source.as_bytes(), start);
    let mut out = render_above(source, &around.above, around.number - around.above.len());
    let ghost above_text = out@;
    let digits = append_numbered(
        &mut out,
        around.above.len() == 0,
        around.number,
        source,
        around.first,
        around.last,
    );
    let ghost marked = numbered(
        around.number as nat,
        text(s, around.first as int, around.last as int),
    );
    proof {
        if around.above.len() == 0 {
            assert(above_text =~= Seq::<char>::empty());
            assert(out@ =~= marked);
            assert(around.number == 1);
        } else {
            assert(out@ =~= above_text + seq!['\n'] + marked);
            assert(around.number > 1);
        }
    }
    let ghost marked_text = out@;
    append_marker(&mut out, digits, start - around.first, end - start, message);
    let ghost mark = marker(
        around.number as nat,
        (start - around.first) as nat,
        (end - start) as nat,
        message@,
    );
    proof {
        assert(out@ =~= marked_text + seq!['\n'] + mark);
        lemma_annotation(s, start as int, end as int, message@, above_text, marked, mark);
    }
    append_below(&mut out, source, &around.below, around.number + 1);
    out
}

impl Diagnostic {
    /// The message of the diagnostic.
    pub fn message(self: &Self) -> (r: &'static str)
        ensures
            r@ == message_of(self.ty),
    {
        match self.ty {
            DiagnosticType::InvalidOpcode => "Invalid opcode",
            DiagnosticType::MissingOperand => "Missing operand",
            DiagnosticType::InvalidOperand => "Invalid operand, expected a number",
            DiagnosticType::TooManyOperands => "Only one operand expected",
            DiagnosticType::MissingStp => "Program must contain at least one STP instruction",
        }
    }

    /// Renders the diagnostic as an excerpt of the source it was found in.
    pub fn annotate(self: &Self, source: &str) -> (r: String)
        requires
            self.start <= self.end,
            self.start <= source.spec_bytes().len(),
        ensures
            r@ == annotation(
                source.spec_bytes(),
                self.start as int,
                self.end as int,
                message_of(self.ty),
            ),
    {
        annotate_range(source, self.start, self.end, self.message())
    }
}

impl ParseResult {
    /// The excerpts of the diagnostics, in the order of the diagnostics.
    pub fn annotations(self: &Self) -> (r: Vec<String>)
        requires
            self.is_renderable(),
        ensures
            r@.len() == self.diagnostics@.len(),
            forall|k: int|
                0 <= k < r@.len() ==> (#[trigger] r@[k])@ == annotation(
                    encode_utf8(self.code@),
                    self.diagnostics@[k].start as int,
                    self.diagnostics@[k].end as int,
                    message_of(self.diagnostics@[k].ty),
                ),
    {
        let mut shown: Vec<String> = Vec::new();
        let mut at: usize = 0;
        while at < self.diagnostics.len()
            invariant
                at <= self.diagnostics@.len(),
                self.is_renderable(),
                shown@.len() == at,
                forall|k: int|
                    0 <= k < at ==> (#[trigger] shown@[k])@ == annotation(
                        encode_utf8(self.code@),
                        self.diagnostics@[k].start as int,
                        self.diagnostics@[k].end as int,
                        message_of(self.diagnostics@[k].ty),
                    ),
            decreases self.diagnostics@.len() - at,
        {
            let diagnostic = &self.diagnostics[at];
            assert(diagnostic == self.diagnostics@[at as int]);
            shown.push(diagnostic.annotate(self.code.as_str()));
            at = at + 1;
        }
        shown
    }
}

} // verus!
