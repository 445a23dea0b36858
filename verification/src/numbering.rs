//! Lines by number: dedenting a text does not change at which line it is split.

use crate::dedent::{
    dedented, dedented_line, dedented_lines, joined, law_line_loses_white_space,
    law_margin_is_common, lemma_dedented_lines_hold_no_line_feed, lemma_joined_first, margin,
};
use crate::lines::{
    lemma_line_len, lemma_line_len_unique, line_content, line_len, lines,
};
use crate::paragraph::{
    error_line, error_paragraph, follows_blank_line, is_split_point, law_split_point,
    lemma_error_line_carriage_return, lemma_error_line_not_blank, lemma_next_line,
    lemma_split_point, line_at, line_start, split_point,
};
use crate::whitespace::{blank, lemma_trimmed_start_skip, white};
use vstd::prelude::*;

verus! {

/// The character at which line number `i` of `s` starts, or the end of `s` if it has no such line.
pub open spec fn line_begin(s: Seq<char>, i: nat) -> int
    decreases i,
{
    if i == 0 {
        0
    } else {
        let b = line_begin(s, (i - 1) as nat);
        b + line_len(s.skip(b))
    }
}

/// Line number `i` of `s`, without its line feed.
pub open spec fn numbered_line(s: Seq<char>, i: nat) -> Seq<char> {
    line_at(s, line_begin(s, i))
}

/// Numbered lines start at line starts, and follow their predecessors.
proof fn lemma_line_begin(s: Seq<char>, i: nat)
    ensures
        0 <= line_begin(s, i) <= s.len(),
        line_begin(s, i) < s.len() ==> line_start(s, line_begin(s, i)),
        line_begin(s, i) <= line_begin(s, i + 1),
        line_begin(s, i) < s.len() ==> line_begin(s, i) < line_begin(s, i + 1),
        line_begin(s, i) < s.len() ==> forall|q: int|
            line_begin(s, i) < q < line_begin(s, i + 1) ==> !#[trigger] line_start(s, q),
        line_begin(s, i + 1) < s.len() ==> (follows_blank_line(s, line_begin(s, i + 1))
            <==> blank(numbered_line(s, i))),
    decreases i,
{
    if i > 0 {
        lemma_line_begin(s, (i - 1) as nat);
        let before = line_begin(s, (i - 1) as nat);
        lemma_line_len(s.skip(before));
        if before < s.len() {
            lemma_next_line(s, before);
        }
    }
    let b = line_begin(s, i);
    lemma_line_len(s.skip(b));
    if b < s.len() {
        lemma_next_line(s, b);
    }
}

/// Lines start in the order of their numbers.
proof fn lemma_line_begin_monotonic(s: Seq<char>, i: nat, j: nat)
    requires
        i < j,
    ensures
        line_begin(s, i) <= line_begin(s, j),
        line_begin(s, i) < s.len() ==> line_begin(s, i) < line_begin(s, j),
    decreases j,
{
    lemma_line_begin(s, (j - 1) as nat);
    if i < j - 1 {
        lemma_line_begin_monotonic(s, i, (j - 1) as nat);
    }
}

/// Every line has a number.
proof fn lemma_line_number(s: Seq<char>, p: int, i: nat) -> (n: nat)
    requires
        line_start(s, p),
        p < s.len(),
        line_begin(s, i) <= p,
    ensures
        line_begin(s, n) == p,
    decreases p - line_begin(s, i),
{
    lemma_line_begin(s, i);
    if line_begin(s, i) == p {
        i
    } else {
        lemma_line_number(s, p, i + 1)
    }
}

/// No line starts at the end of a text.
proof fn lemma_no_line_at_end(s: Seq<char>)
    ensures
        line_at(s, s.len() as int).len() == 0,
{
    lemma_line_len(s.skip(s.len() as int));
}

/// Whether an `error:` paragraph starts at a numbered line can be told from that line and the one
/// before it.
proof fn lemma_numbered_paragraph(s: Seq<char>, i: nat)
    ensures
        error_paragraph(s, line_begin(s, i)) <==> error_line(numbered_line(s, i)) && (i == 0
            || blank(numbered_line(s, (i - 1) as nat))),
{
    lemma_line_begin(s, i);
    if error_line(numbered_line(s, i)) {
        lemma_error_line_not_blank(numbered_line(s, i));
        lemma_no_line_at_end(s);
        if i > 0 {
            lemma_line_begin(s, (i - 1) as nat);
            lemma_line_begin_monotonic(s, 0, i);
        }
    }
}

/// The lines of a text are its numbered lines, but for a carriage return at the end.
proof fn lemma_lines_numbered(s: Seq<char>, i: nat)
    ensures
        i <= lines(s).len() ==> lines(s.skip(line_begin(s, i))) == lines(s).skip(i as int),
        i >= lines(s).len() ==> line_begin(s, i) == s.len(),
        i < lines(s).len() ==> numbered_line(s, i) == lines(s)[i as int] || numbered_line(s, i)
            == lines(s)[i as int].push('\r'),
    decreases i,
{
    lemma_line_begin(s, i);
    let b = line_begin(s, i);
    if i == 0 {
        assert(s.skip(0) =~= s);
        assert(lines(s).skip(0) =~= lines(s));
    } else {
        let before = line_begin(s, (i - 1) as nat);
        lemma_lines_numbered(s, (i - 1) as nat);
        lemma_line_begin(s, (i - 1) as nat);
        if i <= lines(s).len() {
            let rest = s.skip(before);
            lemma_line_len(rest);
            assert(rest.skip(line_len(rest)) =~= s.skip(b));
            assert(lines(rest).skip(1) =~= lines(s.skip(b)));
            assert(lines(s).skip(i - 1).skip(1) =~= lines(s).skip(i as int));
        }
    }
    let rest = s.skip(b);
    if i < lines(s).len() {
        assert(lines(s).skip(i as int)[0] == lines(s)[i as int]);
        let raw = rest.take(line_len(rest));
        assert(lines(rest)[0] == line_content(raw));
        if raw.len() > 0 && raw.last() == '\n' {
            let line = raw.drop_last();
            if line.len() > 0 && line.last() == '\r' {
                assert(line =~= line.drop_last().push('\r'));
            }
        }
    } else {
        if i == lines(s).len() {
            assert(lines(rest).len() == 0);
        } else {
            lemma_lines_numbered(s, (i - 1) as nat);
        }
    }
}

/// The numbered lines of joined lines are these lines.
proof fn lemma_joined_numbered(ls: Seq<Seq<char>>, i: nat)
    requires
        ls.len() > 0,
        forall|k: int| 0 <= k < ls.len() ==> !(#[trigger] ls[k]).contains('\n'),
    ensures
        i < ls.len() ==> joined(ls).skip(line_begin(joined(ls), i)) == joined(ls.skip(i as int)),
        i < ls.len() ==> numbered_line(joined(ls), i) == ls[i as int],
        i >= ls.len() ==> line_begin(joined(ls), i) == joined(ls).len(),
    decreases i,
{
    let s = joined(ls);
    let b = line_begin(s, i);
    lemma_line_begin(s, i);
    if i == 0 {
        assert(s.skip(0) =~= s);
        assert(ls.skip(0) =~= ls);
    } else {
        let h = (i - 1) as nat;
        lemma_joined_numbered(ls, h);
        lemma_line_begin(s, h);
        let before = line_begin(s, h);
        if h < ls.len() {
            let rest = s.skip(before);
            lemma_joined_line(ls.skip(h as int), ls[h as int]);
            assert(rest.skip(line_len(rest)) =~= s.skip(b));
            if i < ls.len() {
                assert(ls.skip(h as int).drop_first() =~= ls.skip(i as int));
            }
        }
    }
    if i < ls.len() {
        let others = ls.skip(i as int);
        lemma_joined_line(others, ls[i as int]);
        assert(joined(others).skip(0) =~= joined(others));
    }
}

/// The first line of joined lines is the first of them.
proof fn lemma_joined_line(ls: Seq<Seq<char>>, first: Seq<char>)
    requires
        ls.len() > 0,
        first == ls[0],
        !first.contains('\n'),
    ensures
        line_at(joined(ls), 0) == first,
        ls.len() > 1 ==> joined(ls).skip(line_len(joined(ls))) == joined(ls.drop_first()),
        ls.len() == 1 ==> line_len(joined(ls)) == joined(ls).len(),
{
    let s = joined(ls);
    assert(s.skip(0) =~= s);
    let n = first.len() as int;
    lemma_line_len(s);
    if ls.len() > 1 {
        lemma_joined_first(ls);
        assert(s[n] == '\n');
        assert forall|i: int| 0 <= i < n implies #[trigger] s[i] != '\n' by {
            assert(s[i] == first[i]);
            assert(first.contains(first[i]));
        }
        lemma_line_len_unique(s, n + 1);
        assert(s.take(n + 1) =~= first.push('\n'));
        assert(first.push('\n').drop_last() =~= first);
        assert(s.skip(n + 1) =~= joined(ls.drop_first()));
    } else {
        assert forall|i: int| 0 <= i < n implies #[trigger] s[i] != '\n' by {
            assert(first.contains(first[i]));
        }
        if n > 0 {
            lemma_line_len_unique(s, n);
            assert(s[n - 1] != '\n');
        }
        assert(s.take(n) =~= s);
    }
}

/// Taking white space off the start of a line neither makes nor hides an `error:`.
proof fn lemma_error_line_dedented(line: Seq<char>, margin: Seq<char>)
    requires
        blank(margin),
    ensures
        error_line(dedented_line(line, margin)) <==> error_line(line),
{
    law_line_loses_white_space(line, margin);
    let n = line.len() - dedented_line(line, margin).len();
    assert(line.skip(n) =~= dedented_line(line, margin));
    assert forall|i: int| 0 <= i < n implies white(#[trigger] line.take(n)[i]) by {
        assert(line[i] == margin.take(n)[i]);
        assert(white(margin[i]));
    }
    lemma_trimmed_start_skip(line, n);
}

/// Lines of the same number in a text and in its dedented form are alike: both show `error:` or
/// neither does, and both are blank or neither is.
proof fn lemma_dedented_numbered(text: Seq<char>, i: nat)
    ensures
        error_line(numbered_line(text, i)) <==> error_line(numbered_line(dedented(text), i)),
        blank(numbered_line(text, i)) <==> blank(numbered_line(dedented(text), i)),
{
    let ls = lines(text);
    let m = margin(ls);
    if m.len() > 0 {
        let flat = dedented_lines(ls, m);
        lemma_dedented_lines_hold_no_line_feed(text, m);
        law_margin_is_common(ls);
        lemma_lines_numbered(text, i);
        lemma_joined_numbered(flat, i);
        if i < ls.len() {
            let line = ls[i as int];
            law_line_loses_white_space(line, m);
            lemma_error_line_dedented(line, m);
            lemma_error_line_carriage_return(line);
        } else {
            lemma_no_line_at_end(text);
            lemma_no_line_at_end(dedented(text));
            assert(numbered_line(text, i) =~= numbered_line(dedented(text), i));
        }
    }
}

/// The split of `a` carries over to `b`, if at each line both have a paragraph or neither has.
proof fn lemma_split_carries_over(a: Seq<char>, b: Seq<char>, i: nat)
    requires
        is_split_point(a, line_begin(a, i)),
        forall|j: nat| #[trigger]
            error_paragraph(a, line_begin(a, j)) <==> error_paragraph(b, line_begin(b, j)),
    ensures
        is_split_point(b, line_begin(b, i)),
{
    assert(line_begin(a, 0) == 0 && line_begin(b, 0) == 0);
    assert(error_paragraph(a, line_begin(a, 0)) <==> error_paragraph(b, line_begin(b, 0)));
    assert(error_paragraph(a, line_begin(a, i)));
    let first = error_paragraph(b, 0);
    assert forall|q: int| #[trigger] error_paragraph(b, q) implies if first {
        q <= line_begin(b, i)
    } else {
        line_begin(b, i) <= q
    } by {
        lemma_error_line_not_blank(line_at(b, q));
        lemma_no_line_at_end(b);
        let j = lemma_line_number(b, q, 0);
        assert(error_paragraph(a, line_begin(a, j)));
        lemma_paragraph_within(a, line_begin(a, j));
        lemma_paragraph_within(a, line_begin(a, i));
        if i < j {
            lemma_line_begin_monotonic(a, i, j);
            lemma_line_begin_monotonic(b, i, j);
        } else if j < i {
            lemma_line_begin_monotonic(a, j, i);
            lemma_line_begin_monotonic(b, j, i);
        }
    }
}

/// A paragraph starts before the end of its text.
proof fn lemma_paragraph_within(s: Seq<char>, p: int)
    requires
        error_paragraph(s, p),
    ensures
        p < s.len(),
{
    lemma_error_line_not_blank(line_at(s, p));
    lemma_no_line_at_end(s);
}

/// Dedenting a text does not change at which line it is split, or whether it is split at all.
pub proof fn law_dedent_keeps_split_line(text: Seq<char>)
    ensures
        split_point(text) is None <==> split_point(dedented(text)) is None,
        split_point(text) is Some ==> exists|i: nat|
            split_point(text) == Some(#[trigger] line_begin(text, i)) && split_point(dedented(text))
                == Some(line_begin(dedented(text), i)),
{
    let flat = dedented(text);
    assert forall|j: nat| #[trigger]
        error_paragraph(text, line_begin(text, j)) <==> error_paragraph(
            flat,
            line_begin(flat, j),
        ) by {
        lemma_numbered_paragraph(text, j);
        lemma_numbered_paragraph(flat, j);
        lemma_dedented_numbered(text, j);
        if j > 0 {
            lemma_dedented_numbered(text, (j - 1) as nat);
        }
    }
    law_split_point(text);
    law_split_point(flat);
    if let Some(p) = split_point(text) {
        lemma_paragraph_within(text, p);
        let i = lemma_line_number(text, p, 0);
        lemma_split_carries_over(text, flat, i);
        lemma_split_point(flat, line_begin(flat, i));
        assert(split_point(text) == Some(line_begin(text, i)));
    } else if let Some(p) = split_point(flat) {
        lemma_paragraph_within(flat, p);
        let i = lemma_line_number(flat, p, 0);
        assert(error_paragraph(text, line_begin(text, i)));
    }
}

} // verus!
