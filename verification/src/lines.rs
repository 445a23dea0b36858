//! Cutting a text into lines.

use crate::text::{
    find_ascii, lemma_ascii_char_byte, lemma_offset_monotonic, split_str, strip_last_ascii,
    without_last,
};
use vstd::prelude::*;

verus! {

/// The length of the first line of `s`, its line feed counted.
pub open spec fn line_len(s: Seq<char>) -> int {
    match s.index_of_first('\n') {
        Some(k) => k + 1,
        None => s.len() as int,
    }
}

/// What a line holds: `raw` without the line feed that ends it, nor a carriage return before that.
pub open spec fn line_content(raw: Seq<char>) -> Seq<char> {
    if raw.len() > 0 && raw.last() == '\n' {
        without_last(raw.drop_last(), '\r')
    } else {
        raw
    }
}

/// The lines of `s`, without their endings. A line feed at the end of `s` starts no further line.
pub open spec fn lines(s: Seq<char>) -> Seq<Seq<char>>
    decreases s.len(),
{
    if s.len() == 0 {
        Seq::empty()
    } else {
        proof {
            lemma_line_len(s);
        }
        seq![line_content(s.take(line_len(s)))] + lines(s.skip(line_len(s)))
    }
}

/// The first line of a text is not empty, and its only line feed is its last character.
pub proof fn lemma_line_len(s: Seq<char>)
    ensures
        0 <= line_len(s) <= s.len(),
        s.len() > 0 ==> line_len(s) > 0,
        forall|i: int| 0 <= i < line_len(s) - 1 ==> #[trigger] s[i] != '\n',
        line_len(s) < s.len() ==> s[line_len(s) - 1] == '\n',
{
    s.index_of_first_ensures('\n');
}

/// The first line feed fixes the length of the first line.
pub proof fn lemma_line_len_unique(s: Seq<char>, n: int)
    requires
        0 < n <= s.len(),
        forall|i: int| 0 <= i < n - 1 ==> #[trigger] s[i] != '\n',
        n < s.len() ==> s[n - 1] == '\n',
    ensures
        line_len(s) == n,
{
    s.index_of_first_ensures('\n');
    if n < s.len() {
        assert(s.contains(s[n - 1]));
    }
}

/// No line holds a line feed.
pub proof fn lemma_lines_hold_no_line_feed(s: Seq<char>)
    ensures
        forall|i: int| 0 <= i < lines(s).len() ==> !(#[trigger] lines(s)[i]).contains('\n'),
    decreases s.len(),
{
    if s.len() > 0 {
        lemma_line_len(s);
        let n = line_len(s);
        let raw = s.take(n);
        let rest = s.skip(n);
        lemma_lines_hold_no_line_feed(rest);
        let line = line_content(raw);
        if line.contains('\n') {
            let k = choose|k: int| 0 <= k < line.len() && line[k] == '\n';
            assert(raw[k] == s[k]);
            assert(raw.last() == s[n - 1]);
        }
        assert forall|i: int| 0 <= i < lines(s).len() implies !(#[trigger] lines(
            s,
        )[i]).contains('\n') by {
            if i > 0 {
                assert(lines(s)[i] == lines(rest)[i - 1]);
            }
        }
    }
}

/// The stretches of `s` between its line feeds, of which the first starts and the last ends `s`.
pub open spec fn pieces(s: Seq<char>) -> Seq<Seq<char>>
    decreases s.len(),
{
    match s.index_of_first('\n') {
        Some(k) => {
            proof {
                s.index_of_first_ensures('\n');
            }
            seq![s.take(k)] + pieces(s.skip(k + 1))
        },
        None => seq![s],
    }
}

/// A stretch without line feeds and a line feed in front of a text add a piece to it.
pub proof fn lemma_pieces_cons(piece: Seq<char>, rest: Seq<char>)
    requires
        !piece.contains('\n'),
    ensures
        pieces(piece.push('\n') + rest) == seq![piece] + pieces(rest),
{
    let s = piece.push('\n') + rest;
    let n = piece.len() as int;
    s.index_of_first_ensures('\n');
    assert(s[n] == '\n');
    assert(s.contains('\n'));
    let k = s.index_of_first('\n')->0;
    if k < n {
        assert(s[k] == piece[k]);
        assert(piece.contains('\n'));
    }
    assert(s.take(n) =~= piece);
    assert(s.skip(n + 1) =~= rest);
}

/// A text without line feeds is one piece.
pub proof fn lemma_pieces_single(s: Seq<char>)
    requires
        !s.contains('\n'),
    ensures
        pieces(s) == seq![s],
{
    s.index_of_first_ensures('\n');
}

/// Each line of a text is a piece of it, but for a carriage return at the end.
pub proof fn lemma_lines_are_pieces(s: Seq<char>, i: int)
    requires
        0 <= i < lines(s).len(),
    ensures
        i < pieces(s).len(),
        pieces(s)[i] == lines(s)[i] || pieces(s)[i] == lines(s)[i].push('\r'),
    decreases s.len(),
{
    s.index_of_first_ensures('\n');
    lemma_line_len(s);
    let n = line_len(s);
    let raw = s.take(n);
    match s.index_of_first('\n') {
        Some(k) => {
            assert(raw.drop_last() =~= s.take(k));
            let piece = s.take(k);
            if piece.len() > 0 && piece.last() == '\r' {
                assert(piece =~= piece.drop_last().push('\r'));
            }
            if i > 0 {
                lemma_lines_are_pieces(s.skip(n), i - 1);
            }
        },
        None => {
            assert(raw =~= s);
            assert(s.skip(n).len() == 0);
            assert(lines(s.skip(n)).len() == 0);
            if raw.len() > 0 && raw.last() == '\n' {
                assert(s.contains(s[n - 1]));
            }
        },
    }
}

/// A line ends at a line feed, at a carriage return with a line feed, or at the end of the text. An
/// empty text has no lines.
pub proof fn law_line_endings(line: Seq<char>, rest: Seq<char>)
    requires
        !line.contains('\n'),
    ensures
        lines(Seq::<char>::empty()).len() == 0,
        line.len() > 0 ==> lines(line) == seq![line],
        lines(line + seq!['\r', '\n'] + rest) == seq![line] + lines(rest),
        line.len() == 0 || line.last() != '\r' ==> lines(line + seq!['\n'] + rest) == seq![line]
            + lines(rest),
{
    let n = line.len() as int;
    if n > 0 {
        assert forall|i: int| 0 <= i < n implies #[trigger] line[i] != '\n' by {
            assert(line.contains(line[i]));
        }
        lemma_line_len_unique(line, n);
        assert(line.take(n) =~= line);
        assert(lines(line.skip(n)).len() == 0);
        assert(lines(line) =~= seq![line]);
    }
    lemma_lines_cons(line.push('\r'), rest);
    assert(line.push('\r').push('\n') + rest =~= line + seq!['\r', '\n'] + rest);
    assert(line.push('\r').drop_last() =~= line);
    lemma_lines_cons(line, rest);
    assert(line.push('\n') + rest =~= line + seq!['\n'] + rest);
}

/// A stretch without line feeds and a line feed in front of a text add a line to it.
proof fn lemma_lines_cons(raw: Seq<char>, rest: Seq<char>)
    requires
        !raw.contains('\n'),
    ensures
        lines(raw.push('\n') + rest) == seq![without_last(raw, '\r')] + lines(rest),
{
    let s = raw.push('\n') + rest;
    let n = raw.len() as int;
    assert(s[n] == '\n');
    assert forall|i: int| 0 <= i < n implies #[trigger] s[i] != '\n' by {
        assert(raw.contains(raw[i]));
    }
    lemma_line_len_unique(s, n + 1);
    assert(s.take(n + 1) =~= raw.push('\n'));
    assert(raw.push('\n').drop_last() =~= raw);
    assert(s.skip(n + 1) =~= rest);
}

/// Cut at its line feeds, a text starts with a piece and ends with one, and no piece holds a line
/// feed.
pub proof fn lemma_pieces(s: Seq<char>)
    ensures
        pieces(s).len() > 0,
        pieces(s).last().len() <= s.len(),
        pieces(s).last() == s.skip(s.len() - pieces(s).last().len()),
        pieces(s).last().len() < s.len() ==> s[s.len() - pieces(s).last().len() - 1] == '\n',
        forall|i: int| 0 <= i < pieces(s).len() ==> !(#[trigger] pieces(s)[i]).contains('\n'),
    decreases s.len(),
{
    s.index_of_first_ensures('\n');
    match s.index_of_first('\n') {
        Some(k) => {
            let rest = s.skip(k + 1);
            lemma_pieces(rest);
            let n = pieces(rest).last().len() as int;
            assert(pieces(s).last() == pieces(rest).last());
            assert(rest.skip(rest.len() - n) =~= s.skip(s.len() - n));
            if s.take(k).contains('\n') {
                let i = choose|i: int| 0 <= i < k && s.take(k)[i] == '\n';
                assert(s[i] == '\n');
            }
            assert forall|i: int| 0 <= i < pieces(s).len() implies !(#[trigger] pieces(
                s,
            )[i]).contains('\n') by {
                if i > 0 {
                    assert(pieces(s)[i] == pieces(rest)[i - 1]);
                }
            }
        },
        None => {
            assert(s.skip(0) =~= s);
        },
    }
}

/// The pieces of two texts with a line feed between them are the pieces of the one and the pieces of
/// the other.
pub proof fn law_pieces_of_joined(a: Seq<char>, b: Seq<char>)
    ensures
        pieces(a + seq!['\n'] + b) == pieces(a) + pieces(b),
    decreases a.len(),
{
    let s = a + seq!['\n'] + b;
    a.index_of_first_ensures('\n');
    match a.index_of_first('\n') {
        Some(k) => {
            let first = a.take(k);
            let rest = a.skip(k + 1);
            if first.contains('\n') {
                let i = choose|i: int| 0 <= i < k && first[i] == '\n';
                assert(a[i] == '\n');
            }
            law_pieces_of_joined(rest, b);
            lemma_pieces_cons(first, rest + seq!['\n'] + b);
            assert(s =~= first.push('\n') + (rest + seq!['\n'] + b));
            assert(pieces(s) =~= pieces(a) + pieces(b));
        },
        None => {
            lemma_pieces_cons(a, b);
            assert(s =~= a.push('\n') + b);
        },
    }
}

/// A stretch without line feeds in front of a text makes its first piece longer.
pub proof fn lemma_first_piece(start: Seq<char>, rest: Seq<char>)
    requires
        !start.contains('\n'),
    ensures
        pieces(start + rest)[0] == start + pieces(rest)[0],
{
    let s = start + rest;
    let n = start.len() as int;
    s.index_of_first_ensures('\n');
    rest.index_of_first_ensures('\n');
    match rest.index_of_first('\n') {
        Some(k) => {
            assert(s[n + k] == '\n');
            assert(s.contains('\n'));
            let j = s.index_of_first('\n')->0;
            if j < n {
                assert(start.contains(start[j]));
            } else if j < n + k {
                assert(rest[j - n] == s[j]);
            }
            assert(s.take(n + k) =~= start + rest.take(k));
        },
        None => {
            if s.contains('\n') {
                let j = s.index_of_first('\n')->0;
                if j < n {
                    assert(start.contains(start[j]));
                } else {
                    assert(rest.contains(rest[j - n]));
                }
            }
        },
    }
}

/// Cuts the first line, with its line feed, off `s`.
pub(crate) fn split_line(s: &str) -> (parts: (&str, &str))
    ensures
        parts.0@ == s@.take(line_len(s@)),
        parts.1@ == s@.skip(line_len(s@)),
{
    proof {
        s@.index_of_first_ensures('\n');
    }
    match find_ascii(s, '\n') {
        Some(i) => {
            proof {
                lemma_ascii_char_byte(s@, s@.index_of_first('\n')->0);
            }
            split_str(s, i + 1, Ghost(line_len(s@)))
        },
        None => {
            assert(s@.take(s@.len() as int) =~= s@);
            split_str(s, s.as_bytes().len(), Ghost(s@.len() as int))
        },
    }
}

/// What the line `raw` holds, without its ending.
pub(crate) fn strip_line_ending(raw: &str) -> (content: &str)
    ensures
        content@ == line_content(raw@),
{
    let content = strip_last_ascii(raw, '\n');
    proof {
        if raw@.len() > 0 {
            assert(raw@.take(raw@.len() as int) =~= raw@);
            assert(raw@.take(raw@.len() - 1) =~= raw@.drop_last());
            lemma_offset_monotonic(raw@, raw@.len() - 1, raw@.len() as int);
        }
    }
    if content.as_bytes().len() < raw.as_bytes().len() {
        strip_last_ascii(content, '\r')
    } else {
        raw
    }
}

} // verus!
