//! Finding the `error:` paragraph of an evaluation diagnostic.

use crate::ansi::{
    law_ansi_codes, law_ansi_plain, law_ansi_suffix, lemma_ansi_local, strip_leading_ansi,
    without_leading_ansi,
};
use crate::lines::{
    law_pieces_of_joined, lemma_first_piece, lemma_line_len, lemma_pieces, line_len, pieces,
    split_line,
};
use crate::text::{
    byte_offset, char_index, lemma_char_index_of_offset, lemma_encode_concat,
    lemma_offset_monotonic, lemma_offset_of_char_index, lemma_split_at_char, split_str, starts_with,
    strip_last_ascii, without_last,
};
use crate::whitespace::{
    blank, is_blank, law_lead_is_trimmed, lemma_trimmed_end, lemma_trimmed_end_unique, lemma_trimmed_start,
    lemma_trimmed_start_unique, trim_end, trim_start, trimmed_end, trimmed_start, white,
};
use vstd::prelude::*;
use vstd::utf8::*;

verus! {

/// A trace, where there is one, and an error block.
pub open spec fn parts_view(parts: (Option<&str>, &str)) -> (Option<Seq<char>>, Seq<char>) {
    (
        match parts.0 {
            Some(trace) => Some(trace@),
            None => None,
        },
        parts.1@,
    )
}

/// `text` cut before character `k`, without the white space that each side ends with. An empty
/// trace is no trace.
pub open spec fn cut(text: Seq<char>, k: int) -> (Option<Seq<char>>, Seq<char>) {
    let trace = trimmed_end(text.take(k));
    (
        if trace.len() == 0 {
            None
        } else {
            Some(trace)
        },
        trimmed_end(text.skip(k)),
    )
}

/// Splits `text` at byte offset `start` into a trace and an error block, and trims the white space
/// off the end of each. A trace that trims down to nothing (the text opened with `error:`, or only
/// blank lines came first) is `None`, so that callers do not render an empty one.
pub fn split_at(text: &str, start: usize) -> (parts: (Option<&str>, &str))
    requires
        is_char_boundary(encode_utf8(text@), start as int),
    ensures
        parts_view(parts) == cut(text@, char_index(text@, start as int)),
        exists|k: int|
            0 <= k <= text@.len() && start == encode_utf8(#[trigger] text@.take(k)).len(),
        forall|k: int|
            0 <= k <= text@.len() && start == encode_utf8(#[trigger] text@.take(k)).len() ==> {
                &&& parts.0 is None <==> blank(text@.take(k))
                &&& parts.0 matches Some(trace) ==> {
                    &&& 0 < trace@.len() <= k
                    &&& trace@ == text@.take(trace@.len() as int)
                    &&& !white(trace@.last())
                    &&& blank(text@.subrange(trace@.len() as int, k))
                }
                &&& parts.1@.len() <= text@.len() - k
                &&& parts.1@ == text@.subrange(k, k + parts.1@.len())
                &&& parts.1@.len() == 0 || !white(parts.1@.last())
                &&& blank(text@.skip(k + parts.1@.len()))
            },
{
    let ghost k = char_index(text@, start as int);
    proof {
        lemma_offset_of_char_index(text@, start as int);
        assert(start == encode_utf8(text@.take(k)).len());
        law_parts_of_cut(text@, k);
        assert forall|j: int|
            0 <= j <= text@.len() && start == encode_utf8(
                #[trigger] text@.take(j),
            ).len() implies j == k by {
            lemma_char_index_of_offset(text@, j);
        }
    }
    let (lead, rest) = split_str(text, start, Ghost(k));
    let trace = trim_end(lead);
    if trace.is_empty() {
        (None, trim_end(rest))
    } else {
        (Some(trace), trim_end(rest))
    }
}

/// A line starts at character `p` of `text`.
pub open spec fn line_start(text: Seq<char>, p: int) -> bool {
    &&& 0 <= p <= text.len()
    &&& p == 0 || text[p - 1] == '\n'
}

/// The line that starts at character `p` of `text`, without its line feed.
pub open spec fn line_at(text: Seq<char>, p: int) -> Seq<char> {
    let rest = text.skip(p);
    without_last(rest.take(line_len(rest)), '\n')
}

/// The line before the one that starts at character `p` of `text` is blank: nothing but white
/// space stands between some earlier line start and `p`.
pub open spec fn follows_blank_line(text: Seq<char>, p: int) -> bool {
    exists|q: int| 0 <= q < p && #[trigger] line_start(text, q) && blank(text.subrange(q, p))
}

/// A line that shows `error:` first, behind any indentation and colour codes.
pub open spec fn error_line(line: Seq<char>) -> bool {
    "error:"@.is_prefix_of(without_leading_ansi(trimmed_start(line)))
}

/// An `error:` paragraph starts at character `p` of `text`: an `error:` line that opens the text
/// or follows a blank line.
pub open spec fn error_paragraph(text: Seq<char>, p: int) -> bool {
    &&& line_start(text, p)
    &&& p == 0 || follows_blank_line(text, p)
    &&& error_line(line_at(text, p))
}

/// Where to split `text`. Paragraphs that follow an opening `error:` are chained errors, of which
/// the last one counts. Otherwise the first `error:` paragraph ends the trace, and what follows
/// belongs to it.
pub open spec fn is_split_point(text: Seq<char>, p: int) -> bool {
    &&& error_paragraph(text, p)
    &&& forall|q: int| #[trigger]
        error_paragraph(text, q) ==> if error_paragraph(text, 0) {
            q <= p
        } else {
            p <= q
        }
}

/// Where `text` is split, if it has an `error:` paragraph at all.
pub open spec fn split_point(text: Seq<char>) -> Option<int> {
    if exists|p: int| error_paragraph(text, p) {
        Some(choose|p: int| is_split_point(text, p))
    } else {
        None
    }
}

/// The trace and the error block of `text`: all of it, where it has no `error:` paragraph.
pub open spec fn trailing_error(text: Seq<char>) -> (Option<Seq<char>>, Seq<char>) {
    match split_point(text) {
        Some(p) => cut(text, p),
        None => (None, text),
    }
}

/// There is only one place to split a text.
pub proof fn lemma_split_point(text: Seq<char>, p: int)
    requires
        is_split_point(text, p),
    ensures
        split_point(text) == Some(p),
{
    let chosen = choose|p: int| is_split_point(text, p);
    assert(is_split_point(text, chosen));
}

/// A text with an `error:` paragraph is split at one of them.
proof fn lemma_split_point_exists(text: Seq<char>, p: int)
    requires
        error_paragraph(text, p),
    ensures
        split_point(text) matches Some(k) && is_split_point(text, k),
{
    if error_paragraph(text, 0) {
        lemma_last_exists(text, p, text.len() as int);
    } else {
        lemma_first_exists(text, p, p);
    }
    let k = choose|k: int| is_split_point(text, k);
    assert(is_split_point(text, k));
}

/// A text is split exactly where it has an `error:` paragraph, and at the start of one: an `error:`
/// line in the middle of a paragraph is never where it is split.
pub proof fn law_split_point(text: Seq<char>)
    ensures
        split_point(text) is None <==> forall|p: int| !error_paragraph(text, p),
        split_point(text) matches Some(p) ==> is_split_point(text, p),
{
    if exists|p: int| error_paragraph(text, p) {
        lemma_split_point_exists(text, choose|p: int| error_paragraph(text, p));
    }
}

/// Of the `error:` paragraphs that start before `bound`, one is last.
proof fn lemma_last_exists(text: Seq<char>, p: int, bound: int)
    requires
        error_paragraph(text, 0),
        error_paragraph(text, p),
        p <= bound,
        forall|q: int| #[trigger] error_paragraph(text, q) ==> q <= bound,
    ensures
        exists|k: int| is_split_point(text, k),
    decreases bound - p,
{
    if error_paragraph(text, bound) {
        assert(is_split_point(text, bound));
    } else {
        lemma_last_exists(text, p, bound - 1);
    }
}

/// Going back from an `error:` paragraph, one is first.
proof fn lemma_first_exists(text: Seq<char>, p: int, bound: int)
    requires
        !error_paragraph(text, 0),
        error_paragraph(text, p),
        0 <= bound <= p,
        forall|q: int| bound <= q < p ==> !#[trigger] error_paragraph(text, q),
    ensures
        exists|k: int| is_split_point(text, k),
    decreases p + bound,
{
    if bound == 0 {
        assert(is_split_point(text, p));
    } else if error_paragraph(text, bound - 1) {
        lemma_first_exists(text, bound - 1, bound - 1);
    } else {
        lemma_first_exists(text, p, bound - 1);
    }
}

/// A blank line shows no `error:`.
pub proof fn lemma_error_line_not_blank(line: Seq<char>)
    requires
        error_line(line),
    ensures
        !blank(line),
{
    lemma_trimmed_start(line);
    reveal_strlit("error:");
    if blank(line) {
        assert(trimmed_start(line).len() == 0);
    }
}

/// What the line at `p` says of the next line: that one starts where this one ends, nothing in
/// between starts a line, and it follows a blank line if this one is blank.
pub proof fn lemma_next_line(text: Seq<char>, p: int)
    requires
        line_start(text, p),
        p < text.len(),
    ensures
        0 < line_len(text.skip(p)) <= text.len() - p,
        forall|q: int| p < q < p + line_len(text.skip(p)) ==> !#[trigger] line_start(text, q),
        p + line_len(text.skip(p)) < text.len() ==> line_start(text, p + line_len(text.skip(p))),
        p + line_len(text.skip(p)) < text.len() ==> (follows_blank_line(
            text,
            p + line_len(text.skip(p)),
        ) <==> blank(line_at(text, p))),
{
    let rest = text.skip(p);
    let n = line_len(rest);
    let content = line_at(text, p);
    lemma_line_len(rest);
    assert forall|q: int| p < q < p + n implies !#[trigger] line_start(text, q) by {
        assert(rest[q - 1 - p] == text[q - 1]);
    }
    if p + n < text.len() {
        assert(rest[n - 1] == text[p + n - 1]);
        let whole = text.subrange(p, p + n);
        assert(whole =~= content.push('\n'));
        if blank(content) {
            assert forall|i: int| 0 <= i < whole.len() implies white(#[trigger] whole[i]) by {
                if i < content.len() {
                    assert(whole[i] == content[i]);
                }
            }
            assert(line_start(text, p));
        }
        if follows_blank_line(text, p + n) {
            let q = choose|q: int|
                0 <= q < p + n && #[trigger] line_start(text, q) && blank(text.subrange(q, p + n));
            assert(q <= p);
            assert forall|i: int| 0 <= i < content.len() implies white(#[trigger] content[i]) by {
                assert(text.subrange(q, p + n)[p + i - q] == content[i]);
            }
        }
    }
}

/// Splits an evaluation diagnostic into `(trace, error_block)`.
///
/// With `--show-trace`, Nix prints a tree of `... while ...` frames and then an `error: ...`
/// paragraph. The paragraph carries the message to act on; the frames help debugging but bury it
/// under a hundred lines of evaluation context. Splitting lets callers show the paragraph as the
/// headline and move the trace elsewhere.
///
/// An `error:` line starts a paragraph only if it opens the text or follows a blank line. Where
/// something comes before the first such line, that line ends the trace: all that follows is the
/// error block, even if a multi-line `throw` puts further `error:` paragraphs in it. Where the
/// text opens with `error:`, the paragraphs are chained errors and the last one is the error
/// block.
///
/// Without any such line the result is `(None, text)`, and callers can render one block.
pub fn split_trailing_error(text: &str) -> (parts: (Option<&str>, &str))
    ensures
        parts_view(parts) == trailing_error(text@),
        parts.0 matches Some(trace) ==> trailing_error(text@).0 == Some(trace@),
        parts.0 is None ==> trailing_error(text@).0 is None,
        parts.1@ == trailing_error(text@).1,
{
    let mut error_start: Option<usize> = None;
    // The start of the text counts as preceded by a blank line.
    let mut prev_was_blank = true;
    let mut line_offset: usize = 0;
    let mut rest = text;
    let total: usize = text.as_bytes().len();
    let ghost mut p: int = 0;
    let ghost mut e: int = 0;
    assert(text@.skip(0) =~= text@);
    assert(text@.take(0) =~= Seq::<char>::empty());
    while !rest.is_empty()
        invariant
            0 <= p <= text@.len(),
            rest@ == text@.skip(p),
            line_offset == byte_offset(text@, p),
            total == encode_utf8(text@).len(),
            rest@.len() > 0 ==> line_start(text@, p) && prev_was_blank == (p == 0
                || follows_blank_line(text@, p)),
            match error_start {
                Some(start) => {
                    &&& start == byte_offset(text@, e)
                    &&& error_paragraph(text@, 0)
                    &&& error_paragraph(text@, e)
                    &&& forall|q: int| q < p && #[trigger] error_paragraph(text@, q) ==> q <= e
                },
                None => forall|q: int| q < p ==> !#[trigger] error_paragraph(text@, q),
            },
        decreases rest@.len(),
    {
        let (line, tail) = split_line(rest);
        let content = strip_last_ascii(line, '\n');
        let line_is_blank = is_blank(content);
        proof {
            lemma_next_line(text@, p);
            if p > 0 {
                lemma_offset_monotonic(text@, 0, p);
            }
            if error_line(content@) {
                lemma_error_line_not_blank(content@);
            }
        }
        if !line_is_blank && prev_was_blank {
            let shown = strip_leading_ansi(trim_start(content));
            if starts_with(shown, "error:") {
                assert(error_paragraph(text@, p));
                match error_start {
                    // Something precedes the first paragraph, which ends the trace.
                    None if line_offset > 0 => {
                        proof {
                            assert(is_split_point(text@, p));
                            lemma_split_point(text@, p);
                            lemma_char_index_of_offset(text@, p);
                        }
                        return split_at(text, line_offset);
                    },
                    // The text opens with `error:`: of chained errors the last one counts.
                    _ => {
                        error_start = Some(line_offset);
                        proof {
                            e = p;
                        }
                    },
                }
            }
        }
        prev_was_blank = line_is_blank;
        proof {
            let n = line_len(rest@);
            assert(text@.take(p + n) =~= text@.take(p) + line@);
            lemma_encode_concat(text@.take(p), line@);
            lemma_split_at_char(text@, p + n);
            assert(tail@ =~= text@.skip(p + n));
            assert forall|q: int| p <= q < p + n && #[trigger] error_paragraph(
                text@,
                q,
            ) implies q == p by {
                if q > p {
                    assert(!line_start(text@, q));
                }
            }
            p = p + n;
        }
        line_offset = line_offset + line.as_bytes().len();
        rest = tail;
    }
    proof {
        assert forall|q: int| #[trigger] error_paragraph(text@, q) implies q < p by {
            if q == p {
                lemma_line_len(text@.skip(q));
                lemma_error_line_not_blank(line_at(text@, q));
            }
        }
    }
    match error_start {
        Some(start) => {
            proof {
                assert(is_split_point(text@, e));
                lemma_split_point(text@, e);
                lemma_char_index_of_offset(text@, e);
            }
            split_at(text, start)
        },
        None => (None, text),
    }
}

/// The number of characters of an `error:` line up to the colon of that keyword.
pub open spec fn error_line_prefix(line: Seq<char>) -> int {
    line.len() - without_leading_ansi(trimmed_start(line)).len() + 6
}

/// Whether a line is an `error:` line depends on its characters up to that colon alone.
proof fn lemma_error_line_local(a: Seq<char>, b: Seq<char>)
    requires
        error_line(a),
        error_line_prefix(a) <= b.len(),
        forall|i: int| 0 <= i < error_line_prefix(a) ==> #[trigger] b[i] == a[i],
    ensures
        error_line(b),
{
    reveal_strlit("error:");
    lemma_trimmed_start(a);
    let start = trimmed_start(a);
    law_ansi_suffix(start);
    let shown = without_leading_ansi(start);
    let w = a.len() - start.len();
    let removed = start.len() - shown.len();
    assert(shown[0] == shown.subrange(0, 6)[0]);
    assert(start[0] == a[w]);
    assert forall|i: int| 0 <= i < w implies white(#[trigger] b.take(w)[i]) by {
        assert(b[i] == a[i]);
        assert(a.take(w)[i] == a[i]);
    }
    assert(b[w] == a[w]);
    lemma_trimmed_start_unique(b, w);
    assert forall|i: int| 0 <= i <= removed implies #[trigger] b.skip(w)[i] == start[i] by {
        assert(b[w + i] == a[w + i]);
    }
    lemma_ansi_local(start, b.skip(w));
    let other = b.skip(w).skip(removed);
    assert("error:"@ =~= other.subrange(0, 6)) by {
        assert forall|i: int| 0 <= i < 6 implies #[trigger] other[i] == "error:"@[i] by {
            assert(b[w + removed + i] == a[w + removed + i]);
            assert(shown[i] == shown.subrange(0, 6)[i]);
        }
    }
}

/// The characters up to the colon are within the line, and the colon is the last of them.
proof fn lemma_error_line_prefix(line: Seq<char>)
    requires
        error_line(line),
    ensures
        6 <= error_line_prefix(line) <= line.len(),
        line[error_line_prefix(line) - 1] == ':',
{
    reveal_strlit("error:");
    lemma_trimmed_start(line);
    law_ansi_suffix(trimmed_start(line));
    let shown = without_leading_ansi(trimmed_start(line));
    assert(shown[5] == shown.subrange(0, 6)[5]);
}

/// A carriage return at the end of a line neither makes nor hides an `error:`, nor does it make a
/// line visible.
pub(crate) proof fn lemma_error_line_carriage_return(line: Seq<char>)
    ensures
        error_line(line.push('\r')) <==> error_line(line),
        blank(line.push('\r')) <==> blank(line),
{
    let ended = line.push('\r');
    if error_line(line) {
        lemma_error_line_prefix(line);
        lemma_error_line_local(line, ended);
    }
    if error_line(ended) {
        lemma_error_line_prefix(ended);
        lemma_error_line_local(ended, line);
    }
    if blank(line) {
        assert forall|i: int| 0 <= i < ended.len() implies white(#[trigger] ended[i]) by {
            if i < line.len() {
                assert(ended[i] == line[i]);
            }
        }
    }
    if blank(ended) {
        assert forall|i: int| 0 <= i < line.len() implies white(#[trigger] line[i]) by {
            assert(ended[i] == line[i]);
        }
    }
}

/// The line at `p` is the text from `p` up to the next line feed.
proof fn lemma_line_at(text: Seq<char>, p: int)
    requires
        0 <= p <= text.len(),
    ensures
        p + line_at(text, p).len() <= text.len(),
        line_at(text, p) == text.subrange(p, p + line_at(text, p).len()),
        forall|i: int| 0 <= i < line_at(text, p).len() ==> #[trigger] line_at(text, p)[i] != '\n',
        p + line_at(text, p).len() < text.len() ==> text[p + line_at(text, p).len()] == '\n',
{
    let rest = text.skip(p);
    lemma_line_len(rest);
    let n = line_len(rest);
    let line = line_at(text, p);
    assert(line =~= text.subrange(p, p + line.len()));
    if n > 0 {
        assert(rest.take(n).last() == rest[n - 1]);
    }
    assert forall|i: int| 0 <= i < line.len() implies #[trigger] line[i] != '\n' by {
        if i < n - 1 {
            assert(rest[i] != '\n');
        }
    }
}

/// A stretch of text from `p` without line feeds, up to one or to the end, is the line at `p`.
proof fn lemma_line_at_unique(text: Seq<char>, p: int, end: int)
    requires
        0 <= p <= end <= text.len(),
        forall|i: int| p <= i < end ==> #[trigger] text[i] != '\n',
        end < text.len() ==> text[end] == '\n',
    ensures
        line_at(text, p) == text.subrange(p, end),
{
    lemma_line_at(text, p);
    let n = line_at(text, p).len() as int;
    if p + n < end {
        assert(text[p + n] != '\n');
    } else if end < p + n {
        assert(line_at(text, p)[end - p] == text[end]);
    }
}

/// Paragraphs that start before a line start `p` depend on the text before `p` alone.
proof fn lemma_same_paragraph(a: Seq<char>, b: Seq<char>, q: int, p: int)
    requires
        q < p <= a.len(),
        p <= b.len(),
        line_start(a, p),
        forall|i: int| 0 <= i < p ==> #[trigger] a[i] == b[i],
        error_paragraph(a, q),
    ensures
        error_paragraph(b, q),
{
    assert(a[p - 1] == '\n');
    lemma_line_at(a, q);
    let n = line_at(a, q).len() as int;
    if q + n >= p {
        assert(line_at(a, q)[p - 1 - q] == a[p - 1]);
    }
    assert forall|i: int| q <= i < q + n implies #[trigger] b[i] != '\n' by {
        assert(a[i] == b[i]);
        assert(line_at(a, q)[i - q] == a[i]);
    }
    assert(a[q + n] == b[q + n]);
    lemma_line_at_unique(b, q, q + n);
    assert(a.subrange(q, q + n) =~= b.subrange(q, q + n));
    if q > 0 {
        assert(a[q - 1] == b[q - 1]);
        let r = choose|r: int|
            0 <= r < q && #[trigger] line_start(a, r) && blank(a.subrange(r, q));
        assert(a.subrange(r, q) =~= b.subrange(r, q));
        if r > 0 {
            assert(a[r - 1] == b[r - 1]);
        }
        assert(line_start(b, r));
    }
}

/// A text without an `error:` paragraph is not split: all of it is the error block, as it stands.
pub proof fn law_no_paragraph(text: Seq<char>)
    requires
        forall|p: int| !error_paragraph(text, p),
    ensures
        trailing_error(text) == (None::<Seq<char>>, text),
{
}

/// Where something precedes the first `error:` paragraph, that paragraph ends the trace: the error
/// block is all that follows, whatever further paragraphs it holds.
pub proof fn law_first_paragraph(text: Seq<char>, p: int)
    requires
        p > 0,
        error_paragraph(text, p),
        forall|q: int| q < p ==> !error_paragraph(text, q),
    ensures
        trailing_error(text) == cut(text, p),
{
    assert(is_split_point(text, p));
    lemma_split_point(text, p);
}

/// Of the chained errors of a text that opens with `error:`, the last one is the error block.
pub proof fn law_last_paragraph(text: Seq<char>, p: int)
    requires
        error_paragraph(text, 0),
        error_paragraph(text, p),
        forall|q: int| q > p ==> !error_paragraph(text, q),
    ensures
        trailing_error(text) == cut(text, p),
{
    assert(is_split_point(text, p));
    lemma_split_point(text, p);
}

/// Once something precedes the first `error:` paragraph, no further text moves the split: it only
/// makes the error block longer.
pub proof fn law_block_takes_what_follows(text: Seq<char>, p: int, more: Seq<char>)
    requires
        p > 0,
        error_paragraph(text, p),
        forall|q: int| q < p ==> !error_paragraph(text, q),
    ensures
        trailing_error(text + more).0 == trailing_error(text).0,
        trailing_error(text + more).1 == trimmed_end(text.skip(p) + more),
{
    let all = text + more;
    law_first_paragraph(text, p);
    lemma_line_at(text, p);
    lemma_line_at(all, p);
    let a = line_at(text, p);
    let b = line_at(all, p);
    lemma_error_line_prefix(a);
    if b.len() < a.len() {
        assert(a[b.len() as int] == all[p + b.len()]);
    }
    assert forall|i: int| 0 <= i < error_line_prefix(a) implies #[trigger] b[i] == a[i] by {
        assert(all[p + i] == text[p + i]);
    }
    lemma_error_line_local(a, b);
    let r = choose|r: int|
        0 <= r < p && #[trigger] line_start(text, r) && blank(text.subrange(r, p));
    assert(text.subrange(r, p) =~= all.subrange(r, p));
    assert(line_start(all, r));
    assert(error_paragraph(all, p));
    assert forall|q: int| q < p implies !error_paragraph(all, q) by {
        if error_paragraph(all, q) {
            lemma_same_paragraph(all, text, q, p);
        }
    }
    law_first_paragraph(all, p);
    assert(all.take(p) =~= text.take(p));
    assert(all.skip(p) =~= text.skip(p) + more);
}

/// Frames and noise, then a blank line, then a block that opens with `error:`: the frames are the
/// trace and the block is the error block.
pub proof fn law_lead_is_trace(lead: Seq<char>, block: Seq<char>)
    requires
        forall|q: int| !error_paragraph(lead, q),
        error_line(line_at(block, 0)),
    ensures
        trailing_error(lead + seq!['\n', '\n'] + block) == (
            if blank(lead) {
                None
            } else {
                Some(trimmed_end(lead))
            },
            trimmed_end(block),
        ),
{
    let text = lead + seq!['\n', '\n'] + block;
    let n = lead.len() as int;
    let p = n + 2;
    assert(text[n] == '\n' && text[n + 1] == '\n');
    assert(text.skip(p) =~= block);
    assert(block.skip(0) =~= block);
    assert(line_start(text, n + 1));
    assert forall|i: int| 0 <= i < 1 implies white(#[trigger] text.subrange(n + 1, p)[i]) by {
        assert(text.subrange(n + 1, p)[0] == '\n');
    }
    assert(error_paragraph(text, p));
    assert forall|q: int| q < p implies !error_paragraph(text, q) by {
        if error_paragraph(text, q) {
            lemma_error_line_not_blank(line_at(text, q));
            lemma_line_at(text, q);
            if q == n + 1 {
                lemma_line_at_unique(text, q, q);
            } else {
                let m = line_at(text, q).len() as int;
                if q + m > n {
                    assert(line_at(text, q)[n - q] == text[n]);
                }
                assert forall|i: int| q <= i < q + m implies #[trigger] lead[i] != '\n' by {
                    assert(line_at(text, q)[i - q] == text[i]);
                    assert(text[i] == lead[i]);
                }
                if q + m < n {
                    assert(text[q + m] == lead[q + m]);
                }
                lemma_line_at_unique(lead, q, q + m);
                assert(text.subrange(q, q + m) =~= lead.subrange(q, q + m));
                if q > 0 {
                    assert(text[q - 1] == lead[q - 1]);
                    let r = choose|r: int|
                        0 <= r < q && #[trigger] line_start(text, r) && blank(text.subrange(r, q));
                    assert(text.subrange(r, q) =~= lead.subrange(r, q));
                    if r > 0 {
                        assert(text[r - 1] == lead[r - 1]);
                    }
                    assert(line_start(lead, r));
                }
                assert(error_paragraph(lead, q));
            }
        }
    }
    law_first_paragraph(text, p);
    lemma_trimmed_end(lead);
    let k = trimmed_end(lead).len() as int;
    let before = text.take(p);
    assert forall|i: int| 0 <= i < before.len() - k implies white(#[trigger] before.skip(k)[i]) by {
        if i < n - k {
            assert(lead.skip(k)[i] == before[k + i]);
        }
    }
    if k > 0 {
        assert(lead.take(k).last() == before[k - 1]);
    }
    lemma_trimmed_end_unique(before, k);
    assert(before.take(k) =~= lead.take(k));
}

/// The trace, or an empty text where there is none.
pub open spec fn trace_or_empty(parts: (Option<Seq<char>>, Seq<char>)) -> Seq<char> {
    match parts.0 {
        Some(trace) => trace,
        None => Seq::empty(),
    }
}

/// Splitting loses white space only: the trace, a blank stretch, the error block and a blank
/// stretch make up the text.
pub proof fn law_parts_cover_text(text: Seq<char>)
    ensures
        exists|gap: Seq<char>, end: Seq<char>| #[trigger]
            blank(gap) && #[trigger] blank(end) && text == trace_or_empty(trailing_error(text))
                + gap + trailing_error(text).1 + end,
{
    match split_point(text) {
        Some(p) => {
            law_split_point(text);
            let lead = text.take(p);
            let rest = text.skip(p);
            lemma_trimmed_end(lead);
            lemma_trimmed_end(rest);
            let gap = lead.skip(trimmed_end(lead).len() as int);
            let end = rest.skip(trimmed_end(rest).len() as int);
            assert(trace_or_empty(cut(text, p)) =~= trimmed_end(lead));
            assert(blank(gap) && blank(end));
            assert(text =~= trimmed_end(lead) + gap + trimmed_end(rest) + end);
        },
        None => {
            let nothing = Seq::<char>::empty();
            assert(text =~= nothing + nothing + text + nothing);
            assert(blank(nothing));
        },
    }
}

/// A trace is never empty and never ends with white space. There is none exactly where nothing
/// visible comes before the split.
pub proof fn law_trace_is_visible(text: Seq<char>)
    ensures
        trailing_error(text).0 matches Some(trace) ==> trace.len() > 0 && !white(trace.last()),
        split_point(text) matches Some(p) ==> (trailing_error(text).0 is None <==> blank(
            text.take(p),
        )),
{
    if let Some(p) = split_point(text) {
        lemma_trimmed_end(text.take(p));
    }
}

/// The error block of a text that was split shows `error:` first and does not end with white space.
pub proof fn law_block_opens_with_error(text: Seq<char>)
    requires
        split_point(text) is Some,
    ensures
        error_line(line_at(trailing_error(text).1, 0)),
        !white(trailing_error(text).1.last()),
{
    law_split_point(text);
    let p = split_point(text)->0;
    let rest = text.skip(p);
    let block = trimmed_end(rest);
    let a = line_at(text, p);
    lemma_line_at(text, p);
    lemma_error_line_prefix(a);
    let n = error_line_prefix(a);
    lemma_trimmed_end(rest);
    if block.len() < n {
        assert(rest.skip(block.len() as int)[n - 1 - block.len()] == a[n - 1]);
    }
    lemma_line_at(block, 0);
    let b = line_at(block, 0);
    if b.len() < n {
        assert(block[b.len() as int] == a[b.len() as int]);
    }
    assert forall|i: int| 0 <= i < n implies #[trigger] b[i] == a[i] by {
        assert(block[i] == rest[i]);
    }
    lemma_error_line_local(a, b);
}

/// Cutting a text before character `k` gives a trace and a block that stand there: the trace and
/// white space make up the `k` characters before the cut, and the block and white space make up the
/// characters from the cut on. Neither ends with white space. There is no trace where only white
/// space precedes the cut.
pub proof fn law_parts_of_cut(text: Seq<char>, k: int)
    requires
        0 <= k <= text.len(),
    ensures
        cut(text, k).0 is None <==> blank(text.take(k)),
        cut(text, k).0 matches Some(trace) ==> {
            &&& 0 < trace.len() <= k
            &&& trace == text.take(trace.len() as int)
            &&& !white(trace.last())
            &&& blank(text.subrange(trace.len() as int, k))
        },
        ({
            let block = cut(text, k).1;
            &&& block.len() <= text.len() - k
            &&& block == text.subrange(k, k + block.len())
            &&& block.len() == 0 || !white(block.last())
            &&& blank(text.skip(k + block.len()))
        }),
{
    let lead = text.take(k);
    let rest = text.skip(k);
    lemma_trimmed_end(lead);
    lemma_trimmed_end(rest);
    let n = trimmed_end(lead).len() as int;
    let m = trimmed_end(rest).len() as int;
    assert(lead.take(n) =~= text.take(n));
    assert(lead.skip(n) =~= text.subrange(n, k));
    assert(rest.take(m) =~= text.subrange(k, k + m));
    assert(rest.skip(m) =~= text.skip(k + m));
}

/// A line is an `error:` line where that keyword is the first thing it shows.
proof fn lemma_error_line(line: Seq<char>)
    ensures
        error_line(line) <==> seq!['e', 'r', 'r', 'o', 'r', ':'].is_prefix_of(
            without_leading_ansi(trimmed_start(line)),
        ),
{
    reveal_strlit("error:");
    assert("error:"@ =~= seq!['e', 'r', 'r', 'o', 'r', ':']);
}

/// The line at `p` is the first piece of the text from `p` on.
proof fn lemma_line_is_piece(text: Seq<char>, p: int)
    requires
        0 <= p <= text.len(),
    ensures
        line_at(text, p) == pieces(text.skip(p))[0],
{
    let rest = text.skip(p);
    rest.index_of_first_ensures('\n');
    match rest.index_of_first('\n') {
        Some(k) => {
            assert(rest.take(k + 1).drop_last() =~= rest.take(k));
        },
        None => {
            assert(rest.take(rest.len() as int) =~= rest);
            if rest.len() > 0 {
                assert(rest.contains(rest.last()));
            }
        },
    }
}

/// Which places in a text count as the start of an `error:` paragraph: the start of the text, and
/// the start of a line behind a blank line, where the line there shows `error:` first, behind white
/// space and then colour codes.
pub proof fn law_error_paragraph(text: Seq<char>, p: int)
    ensures
        error_paragraph(text, p) <==> {
            &&& 0 <= p <= text.len()
            &&& p == 0 || text[p - 1] == '\n' && blank(pieces(text.take(p - 1)).last())
            &&& seq!['e', 'r', 'r', 'o', 'r', ':'].is_prefix_of(
                without_leading_ansi(trimmed_start(pieces(text.skip(p))[0])),
            )
        },
{
    if line_start(text, p) {
        lemma_line_is_piece(text, p);
        lemma_error_line(line_at(text, p));
        if p > 0 {
            let before = text.take(p - 1);
            lemma_pieces(before);
            let last = pieces(before).last();
            let q = p - 1 - last.len();
            if q > 0 {
                assert(before[q - 1] == text[q - 1]);
            }
            assert(line_start(text, q));
            let whole = text.subrange(q, p);
            assert forall|i: int| 0 <= i < last.len() implies #[trigger] last[i] == whole[i] by {
                assert(before.skip(q)[i] == text[q + i]);
            }
            if blank(last) {
                assert forall|i: int| 0 <= i < whole.len() implies white(#[trigger] whole[i]) by {
                    if i < last.len() {
                        assert(last[i] == whole[i]);
                    }
                }
            }
            if follows_blank_line(text, p) {
                let r = choose|r: int|
                    0 <= r < p && #[trigger] line_start(text, r) && blank(text.subrange(r, p));
                if q < r {
                    assert(last[r - 1 - q] == text[r - 1]);
                    assert(last.contains('\n'));
                    assert(!pieces(before)[pieces(before).len() - 1].contains('\n'));
                }
                assert forall|i: int| 0 <= i < last.len() implies white(#[trigger] last[i]) by {
                    assert(last[i] == whole[i]);
                    assert(text.subrange(r, p)[q + i - r] == text[q + i]);
                }
            }
        }
    }
}

/// The `error:` paragraphs of two texts with a line feed between them: those of the one, those of
/// the other but for its start, and that start where the one ends with a blank line.
pub proof fn law_paragraphs_of_joined(a: Seq<char>, b: Seq<char>, q: int)
    ensures
        q <= a.len() ==> (error_paragraph(a + seq!['\n'] + b, q) <==> error_paragraph(a, q)),
        q > a.len() + 1 ==> (error_paragraph(a + seq!['\n'] + b, q) <==> error_paragraph(
            b,
            q - a.len() - 1,
        )),
        q == a.len() + 1 ==> (error_paragraph(a + seq!['\n'] + b, q) <==> blank(pieces(a).last())
            && error_paragraph(b, 0)),
{
    let all = a + seq!['\n'] + b;
    let n = a.len() as int;
    law_error_paragraph(all, q);
    law_error_paragraph(a, q);
    law_error_paragraph(b, q - n - 1);
    lemma_pieces(a);
    lemma_pieces(b);
    if 0 <= q <= n {
        lemma_pieces(a.skip(q));
        law_pieces_of_joined(a.skip(q), b);
        assert(all.skip(q) =~= a.skip(q) + seq!['\n'] + b);
        if q > 0 {
            assert(all.take(q - 1) =~= a.take(q - 1));
        }
    } else if q == n + 1 {
        assert(all.skip(q) =~= b);
        assert(b.skip(0) =~= b);
        assert(all.take(n) =~= a);
    } else if n + 1 < q <= all.len() {
        let r = q - n - 1;
        assert(all.skip(q) =~= b.skip(r));
        assert(all[q - 1] == b[r - 1]);
        lemma_pieces(b.take(r - 1));
        law_pieces_of_joined(a, b.take(r - 1));
        assert(all.take(q - 1) =~= a + seq!['\n'] + b.take(r - 1));
    }
}

/// From the split on, the error block reaches to the end of the text, but for white space.
proof fn lemma_block_reaches_end(text: Seq<char>)
    requires
        split_point(text) is Some,
    ensures
        split_point(text) == Some(trimmed_end(text).len() - trailing_error(text).1.len()),
{
    law_split_point(text);
    let k = split_point(text)->0;
    let block = trailing_error(text).1;
    law_parts_of_cut(text, k);
    lemma_line_at(text, k);
    let line = line_at(text, k);
    lemma_error_line_not_blank(line);
    let i = choose|i: int| 0 <= i < line.len() && !white(#[trigger] line[i]);
    if block.len() == 0 {
        assert(text.skip(k)[i] == line[i]);
    }
    let end = k + block.len();
    assert(text[end - 1] == block.last());
    lemma_trimmed_end_unique(text, end);
}

/// Where a text with an `error:` paragraph is split, read off its parts: the block reaches from some
/// `k` to the end, but for white space, and the trace reaches from the start to `k`. At `k` the text
/// starts or follows a blank line, and the block shows `error:` first. If the text opens with an
/// `error:` paragraph, no paragraph starts behind `k`; otherwise none starts before it.
pub proof fn law_where_text_is_split(text: Seq<char>, p: int)
    requires
        error_paragraph(text, p),
    ensures
        ({
            let (trace, block) = trailing_error(text);
            let k = trimmed_end(text).len() - block.len();
            &&& 0 <= k <= text.len()
            &&& k == 0 || text[k - 1] == '\n' && blank(pieces(text.take(k - 1)).last())
            &&& seq!['e', 'r', 'r', 'o', 'r', ':'].is_prefix_of(
                without_leading_ansi(trimmed_start(block)),
            )
            &&& block == trimmed_end(text.skip(k))
            &&& trace == if blank(text.take(k)) {
                None
            } else {
                Some(trimmed_end(text.take(k)))
            }
            &&& if error_paragraph(text, 0) {
                p <= k
            } else {
                k <= p
            }
        }),
{
    law_split_point(text);
    let k = split_point(text)->0;
    law_error_paragraph(text, k);
    law_block_shows_keyword(text, p);
    lemma_trimmed_end(text.take(k));
    lemma_block_reaches_end(text);
}

/// The error block of a text with an `error:` paragraph, without the white space and then without
/// the colour codes that it starts with, starts with `error:`.
pub proof fn law_block_shows_keyword(text: Seq<char>, p: int)
    requires
        error_paragraph(text, p),
    ensures
        seq!['e', 'r', 'r', 'o', 'r', ':'].is_prefix_of(
            without_leading_ansi(trimmed_start(trailing_error(text).1)),
        ),
{
    law_split_point(text);
    law_block_opens_with_error(text);
    let block = trailing_error(text).1;
    let line = line_at(block, 0);
    lemma_line_at(block, 0);
    lemma_error_line_prefix(line);
    assert forall|i: int| 0 <= i < error_line_prefix(line) implies #[trigger] block[i]
        == line[i] by {}
    lemma_error_line_local(line, block);
    lemma_error_line(block);
}

/// Of the chained errors of a text that opens with `error:`, the last one, up to the white space at
/// the end of the text, is the error block. The older ones stay in the trace.
pub proof fn law_chained_errors(text: Seq<char>, p: int)
    requires
        error_paragraph(text, 0),
        error_paragraph(text, p),
        forall|q: int| q > p ==> !error_paragraph(text, q),
    ensures
        trailing_error(text).0 == if p == 0 {
            None
        } else {
            Some(trimmed_end(text.take(p)))
        },
        trailing_error(text).1 == trimmed_end(text.skip(p)),
{
    law_last_paragraph(text, p);
    lemma_trimmed_end(text.take(p));
    if p > 0 {
        lemma_line_at(text, 0);
        let line = line_at(text, 0);
        lemma_error_line_not_blank(line);
        let i = choose|i: int| 0 <= i < line.len() && !white(#[trigger] line[i]);
        if line.len() >= p {
            assert(line[p - 1] == text[p - 1]);
        }
        assert(text.take(p)[i] == line[i]);
    }
}

/// Where a text does not open with `error:`, its first `error:` paragraph and all that follows it,
/// up to the white space at the end of the text, is the error block. What precedes is the trace,
/// unless it is blank.
pub proof fn law_first_error(text: Seq<char>, p: int)
    requires
        p > 0,
        error_paragraph(text, p),
        forall|q: int| q < p ==> !error_paragraph(text, q),
    ensures
        trailing_error(text).0 == if blank(text.take(p)) {
            None
        } else {
            Some(trimmed_end(text.take(p)))
        },
        trailing_error(text).1 == trimmed_end(text.skip(p)),
{
    law_first_paragraph(text, p);
    lemma_trimmed_end(text.take(p));
}

/// In a text none of whose lines shows `error:` first, no `error:` paragraph starts.
proof fn lemma_no_keyword(text: Seq<char>, p: int)
    requires
        forall|i: int|
            0 <= i < pieces(text).len() ==> !seq!['e', 'r', 'r', 'o', 'r', ':'].is_prefix_of(
                without_leading_ansi(trimmed_start(#[trigger] pieces(text)[i])),
            ),
    ensures
        !error_paragraph(text, p),
{
    law_error_paragraph(text, p);
    if error_paragraph(text, p) {
        lemma_pieces(text.skip(p));
        if p == 0 {
            assert(text.skip(0) =~= text);
            assert(pieces(text.skip(p))[0] == pieces(text)[0]);
        } else {
            law_pieces_of_joined(text.take(p - 1), text.skip(p));
            assert(text =~= text.take(p - 1) + seq!['\n'] + text.skip(p));
            let i = pieces(text.take(p - 1)).len() as int;
            assert(pieces(text)[i] == pieces(text.skip(p))[0]);
        }
    }
}

/// Paragraphs that show anything but `error:` first are part of the trace, wherever they stand in
/// front of the error.
pub proof fn law_other_paragraphs_stay_in_trace(
    lead: Seq<char>,
    other: Seq<char>,
    block: Seq<char>,
)
    requires
        forall|q: int| !error_paragraph(lead, q),
        forall|i: int|
            0 <= i < pieces(other).len() ==> !seq!['e', 'r', 'r', 'o', 'r', ':'].is_prefix_of(
                without_leading_ansi(trimmed_start(#[trigger] pieces(other)[i])),
            ),
        seq!['e', 'r', 'r', 'o', 'r', ':'].is_prefix_of(
            without_leading_ansi(trimmed_start(pieces(block)[0])),
        ),
    ensures
        ({
            let frames = lead + seq!['\n', '\n'] + other;
            trailing_error(frames + seq!['\n', '\n'] + block) == (
                if blank(frames) {
                    None
                } else {
                    Some(trimmed_end(frames))
                },
                trimmed_end(block),
            )
        }),
{
    let frames = lead + seq!['\n', '\n'] + other;
    let before = lead + seq!['\n'] + Seq::<char>::empty();
    assert(frames =~= before + seq!['\n'] + other);
    assert forall|q: int| !error_paragraph(frames, q) by {
        law_paragraphs_of_joined(before, other, q);
        law_paragraphs_of_joined(lead, Seq::empty(), q);
        lemma_no_keyword(other, q - before.len() - 1);
        if error_paragraph(Seq::empty(), q - lead.len() - 1) {
            lemma_line_at(Seq::empty(), q - lead.len() - 1);
            lemma_error_line_not_blank(line_at(Seq::empty(), q - lead.len() - 1));
        }
    }
    assert(block.skip(0) =~= block);
    lemma_line_is_piece(block, 0);
    lemma_error_line(line_at(block, 0));
    law_lead_is_trace(frames, block);
}

/// Lines that show anything but `error:` first, behind a text with an `error:` paragraph, make its
/// error block longer and move nothing else.
pub proof fn law_other_lines_stay_in_block(text: Seq<char>, p: int, more: Seq<char>)
    requires
        error_paragraph(text, p),
        forall|i: int|
            0 <= i < pieces(more).len() ==> !seq!['e', 'r', 'r', 'o', 'r', ':'].is_prefix_of(
                without_leading_ansi(trimmed_start(#[trigger] pieces(more)[i])),
            ),
    ensures
        ({
            let all = text + seq!['\n'] + more;
            let k = trimmed_end(text).len() - trailing_error(text).1.len();
            &&& trailing_error(all).0 == trailing_error(text).0
            &&& trailing_error(all).1 == trimmed_end(text.skip(k) + seq!['\n'] + more)
        }),
{
    let all = text + seq!['\n'] + more;
    law_split_point(text);
    let k = split_point(text)->0;
    assert forall|q: int| error_paragraph(all, q) <==> #[trigger] error_paragraph(text, q) by {
        law_paragraphs_of_joined(text, more, q);
        lemma_no_keyword(more, q - text.len() - 1);
        lemma_no_keyword(more, 0);
    }
    assert(error_paragraph(all, k));
    assert forall|q: int| #[trigger] error_paragraph(all, q) implies if error_paragraph(all, 0) {
        q <= k
    } else {
        k <= q
    } by {
        assert(error_paragraph(text, q));
        assert(error_paragraph(all, 0) <==> error_paragraph(text, 0));
    }
    assert(is_split_point(all, k));
    lemma_split_point(all, k);
    assert(all.take(k) =~= text.take(k));
    assert(all.skip(k) =~= text.skip(k) + seq!['\n'] + more);
    lemma_block_reaches_end(text);
}

/// White space, any number of colour codes, and then `error:` start an `error:` paragraph wherever
/// they open a text or follow a blank line. Each of `codes` is `ESC`, `[`, and what follows up to
/// the first `m`.
pub proof fn law_coloured_keyword(
    before: Seq<char>,
    indent: Seq<char>,
    codes: Seq<Seq<char>>,
    rest: Seq<char>,
)
    requires
        before.len() == 0 || before.last() == '\n' && blank(pieces(before.drop_last()).last()),
        blank(indent),
        !indent.contains('\n'),
        forall|i: int|
            0 <= i < codes.len() ==> (#[trigger] codes[i]).len() >= 3 && codes[i][0] == '\u{1b}'
                && codes[i][1] == '[' && codes[i].skip(2).index_of_first('m') == Some(
                codes[i].len() - 3,
            ),
        !codes.flatten().contains('\n'),
    ensures
        error_paragraph(
            before + (indent + codes.flatten() + seq!['e', 'r', 'r', 'o', 'r', ':'] + rest),
            before.len() as int,
        ),
{
    let keyword = seq!['e', 'r', 'r', 'o', 'r', ':'];
    let colours = codes.flatten();
    let block = indent + colours + keyword + rest;
    let text = before + block;
    let p = before.len() as int;
    let start = indent + colours + keyword;
    if start.contains('\n') {
        let i = choose|i: int| 0 <= i < start.len() && start[i] == '\n';
        if i < indent.len() {
            assert(indent.contains(indent[i]));
        } else if i < indent.len() + colours.len() {
            assert(colours.contains(colours[i - indent.len()]));
        } else {
            assert(keyword[i - indent.len() - colours.len()] == '\n');
        }
    }
    lemma_first_piece(start, rest);
    assert(text.skip(p) =~= start + rest);
    let more = pieces(rest)[0];
    let line = pieces(text.skip(p))[0];
    assert(line == start + more);
    let shown = colours + (keyword + more);
    assert(line =~= indent + shown);
    assert(!white(shown[0])) by {
        if codes.len() > 0 {
            assert(codes.flatten() == codes[0] + codes.drop_first().flatten());
            assert(shown[0] == codes[0][0]);
        } else {
            assert(shown[0] == 'e');
        }
    }
    law_lead_is_trimmed(indent, shown);
    law_ansi_codes(codes, keyword + more);
    assert((keyword + more)[0] == 'e');
    law_ansi_plain(keyword + more);
    assert(keyword =~= (keyword + more).subrange(0, 6));
    if p > 0 {
        assert(text[p - 1] == before.last());
        assert(text.take(p - 1) =~= before.drop_last());
    }
    law_error_paragraph(text, p);
}

/// Frames and noise, then a blank line, then white space, any number of colour codes and `error:`:
/// the frames are the trace, and the error block starts behind the blank line.
pub proof fn law_coloured_error_ends_trace(
    lead: Seq<char>,
    indent: Seq<char>,
    codes: Seq<Seq<char>>,
    rest: Seq<char>,
)
    requires
        forall|q: int| !error_paragraph(lead, q),
        blank(indent),
        !indent.contains('\n'),
        forall|i: int|
            0 <= i < codes.len() ==> (#[trigger] codes[i]).len() >= 3 && codes[i][0] == '\u{1b}'
                && codes[i][1] == '[' && codes[i].skip(2).index_of_first('m') == Some(
                codes[i].len() - 3,
            ),
        !codes.flatten().contains('\n'),
    ensures
        ({
            let block = indent + codes.flatten() + seq!['e', 'r', 'r', 'o', 'r', ':'] + rest;
            trailing_error(lead + seq!['\n', '\n'] + block) == (
                if blank(lead) {
                    None
                } else {
                    Some(trimmed_end(lead))
                },
                trimmed_end(block),
            )
        }),
{
    let block = indent + codes.flatten() + seq!['e', 'r', 'r', 'o', 'r', ':'] + rest;
    let nothing = Seq::<char>::empty();
    law_coloured_keyword(nothing, indent, codes, rest);
    assert(nothing + block =~= block);
    law_lead_is_trace(lead, block);
}

} // verus!
