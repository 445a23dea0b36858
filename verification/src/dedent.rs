//! Removing the left margin of an indented text.

use crate::lines::{
    lemma_line_len, lemma_lines_are_pieces, lemma_lines_hold_no_line_feed, lemma_pieces_cons,
    lemma_pieces_single, lines, pieces, split_line, strip_line_ending,
};
use crate::text::{lemma_shared_len, shared_len, split_shared};
use crate::whitespace::{blank, is_blank, lead, lemma_lead, lemma_lead_unique, split_lead, white};
use vstd::prelude::*;

verus! {

/// A line that shows something, behind some white space.
pub open spec fn indented(line: Seq<char>) -> bool {
    !blank(line) && lead(line).len() > 0
}

/// The longest white space that all the indented lines start with, if any line is indented.
pub open spec fn common_lead(lines: Seq<Seq<char>>) -> Option<Seq<char>>
    decreases lines.len(),
{
    if lines.len() == 0 {
        None
    } else {
        let others = common_lead(lines.drop_last());
        let line = lines.last();
        if !indented(line) {
            others
        } else {
            match others {
                Some(common) => Some(common.take(shared_len(common, lead(line)))),
                None => Some(lead(line)),
            }
        }
    }
}

/// The longest white space that all the indented lines start with, or nothing if there are none.
pub open spec fn margin(lines: Seq<Seq<char>>) -> Seq<char> {
    match common_lead(lines) {
        Some(common) => common,
        None => Seq::empty(),
    }
}

/// `line` without the longest prefix that it shares with `margin`.
pub open spec fn dedented_line(line: Seq<char>, margin: Seq<char>) -> Seq<char> {
    line.skip(shared_len(line, margin))
}

/// Each of `lines` without the longest prefix that it shares with `margin`.
pub open spec fn dedented_lines(lines: Seq<Seq<char>>, margin: Seq<char>) -> Seq<Seq<char>> {
    Seq::new(lines.len(), |i: int| dedented_line(lines[i], margin))
}

/// `lines` with a line feed between each and the next.
pub open spec fn joined(lines: Seq<Seq<char>>) -> Seq<char>
    decreases lines.len(),
{
    if lines.len() == 0 {
        Seq::empty()
    } else if lines.len() == 1 {
        lines[0]
    } else {
        joined(lines.drop_last()).push('\n') + lines.last()
    }
}

/// `text` without its left margin.
pub open spec fn dedented(text: Seq<char>) -> Seq<char> {
    let margin = margin(lines(text));
    if margin.len() == 0 {
        text
    } else {
        joined(dedented_lines(lines(text), margin))
    }
}

/// The longest white space that all the indented lines of `text` start with.
fn text_margin(text: &str) -> (common: &str)
    ensures
        common@ == margin(lines(text@)),
{
    let mut common: Option<&str> = None;
    let mut rest = text;
    let ghost mut done: Seq<Seq<char>> = Seq::empty();
    assert(done + lines(text@) =~= lines(text@));
    while !rest.is_empty()
        invariant
            lines(text@) == done + lines(rest@),
            match common {
                Some(shared) => common_lead(done) == Some(shared@),
                None => common_lead(done) is None,
            },
        decreases rest@.len(),
    {
        let (raw, tail) = split_line(rest);
        let line = strip_line_ending(raw);
        proof {
            lemma_line_len(rest@);
            assert(done + lines(rest@) =~= done.push(line@) + lines(tail@));
            assert(done.push(line@).drop_last() =~= done);
            done = done.push(line@);
        }
        let (indent, _) = split_lead(line);
        if !is_blank(line) && !indent.is_empty() {
            common = match common {
                Some(shared) => Some(split_shared(shared, indent).0),
                None => Some(indent),
            };
        }
        rest = tail;
    }
    assert(done + lines(rest@) =~= done);
    match common {
        Some(shared) => shared,
        None => {
            proof {
                reveal_strlit("");
                assert(""@ =~= Seq::<char>::empty());
            }
            ""
        },
    }
}

/// Strips the longest leading white space common to the lines that are neither blank nor at the
/// left edge.
///
/// Nix indents every line of a `--show-trace` trace. Removing the common margin flattens the
/// diagnostic and keeps the depth of its lines relative to each other, so that the carets that
/// point into source excerpts stay aligned. A line that starts with only a part of the margin loses
/// that part. A text whose indented lines have no white space in common stays as it is; otherwise
/// its lines are joined by line feeds.
pub fn dedent_lines(text: &str) -> (flat: String)
    ensures
        flat@ == dedented(text@),
{
    let common = text_margin(text);
    if common.is_empty() {
        return text.to_string();
    }
    let mut flat = String::new();
    let mut first = true;
    let mut rest = text;
    let ghost mut done: Seq<Seq<char>> = Seq::empty();
    assert(done + lines(text@) =~= lines(text@));
    while !rest.is_empty()
        invariant
            lines(text@) == done + lines(rest@),
            first == (done.len() == 0),
            flat@ == joined(dedented_lines(done, common@)),
        decreases rest@.len(),
    {
        let (raw, tail) = split_line(rest);
        let line = strip_line_ending(raw);
        proof {
            lemma_line_len(rest@);
            assert(done + lines(rest@) =~= done.push(line@) + lines(tail@));
            let flat_lines = dedented_lines(done.push(line@), common@);
            assert(flat_lines.drop_last() =~= dedented_lines(done, common@));
            reveal_strlit("\n");
            done = done.push(line@);
        }
        if !first {
            flat.append("\n");
        }
        flat.append(split_shared(line, common).1);
        first = false;
        rest = tail;
    }
    assert(done + lines(rest@) =~= done);
    flat
}

/// What `common_lead` gives starts every indented line, and what starts them all starts it.
proof fn lemma_common_lead(lines: Seq<Seq<char>>, other: Seq<char>)
    ensures
        common_lead(lines) is None <==> forall|i: int|
            0 <= i < lines.len() ==> !indented(#[trigger] lines[i]),
        common_lead(lines) matches Some(common) ==> blank(common),
        common_lead(lines) matches Some(common) ==> forall|i: int|
            0 <= i < lines.len() && indented(#[trigger] lines[i]) ==> common.is_prefix_of(
                lead(lines[i]),
            ),
        common_lead(lines) matches Some(common) ==> (forall|i: int|
            0 <= i < lines.len() && indented(#[trigger] lines[i]) ==> other.is_prefix_of(
                lead(lines[i]),
            )) ==> other.is_prefix_of(common),
    decreases lines.len(),
{
    if lines.len() > 0 {
        let others = lines.drop_last();
        let last = lines.len() - 1;
        let line = lines[last];
        lemma_common_lead(others, other);
        lemma_lead(line);
        assert forall|i: int| 0 <= i < last implies #[trigger] others[i] == lines[i] by {}
        if common_lead(lines) is None {
            assert forall|i: int| 0 <= i < lines.len() implies !indented(#[trigger] lines[i]) by {
                if i < last {
                    assert(others[i] == lines[i]);
                }
            }
        } else if common_lead(others) is Some && !indented(line) {
            let i = choose|i: int| 0 <= i < others.len() && indented(#[trigger] others[i]);
            assert(indented(lines[i]));
        } else {
            assert(indented(lines[last]));
        }
        if let Some(common) = common_lead(lines) {
            if indented(line) {
                if let Some(before) = common_lead(others) {
                    lemma_shared_len(before, lead(line));
                    let n = shared_len(before, lead(line));
                    assert(common == before.take(n));
                    assert forall|i: int| 0 <= i < n implies white(#[trigger] common[i]) by {
                        assert(common[i] == before[i]);
                    }
                }
            }
            assert forall|i: int|
                0 <= i < lines.len() && indented(#[trigger] lines[i]) implies common.is_prefix_of(
                lead(lines[i]),
            ) by {
                if i < last {
                    assert(others[i] == lines[i]);
                    let before = common_lead(others)->0;
                    assert(before.is_prefix_of(lead(others[i])));
                    assert(common =~= lead(lines[i]).subrange(0, common.len() as int)) by {
                        assert forall|k: int| 0 <= k < common.len() implies #[trigger] common[k]
                            == lead(lines[i])[k] by {
                            assert(common[k] == before[k]);
                            assert(before[k] == lead(lines[i]).subrange(0, before.len() as int)[k]);
                        }
                    }
                } else {
                    assert(common =~= lead(line).subrange(0, common.len() as int));
                }
            }
            if forall|i: int|
                0 <= i < lines.len() && indented(#[trigger] lines[i]) ==> other.is_prefix_of(
                    lead(lines[i]),
                ) {
                assert forall|i: int|
                    0 <= i < others.len() && indented(
                        #[trigger] others[i],
                    ) implies other.is_prefix_of(lead(others[i])) by {
                    assert(others[i] == lines[i]);
                }
                if indented(line) {
                    assert(other.is_prefix_of(lead(lines[last])));
                    if let Some(before) = common_lead(others) {
                        let n = shared_len(before, lead(line));
                        lemma_shared_len(before, lead(line));
                        if n < other.len() {
                            assert(other[n] == before.subrange(0, other.len() as int)[n]);
                            assert(other[n] == lead(line).subrange(0, other.len() as int)[n]);
                        }
                        assert(other =~= common.subrange(0, other.len() as int));
                    }
                }
            }
        }
    }
}

/// The margin is white space that all the indented lines start with. Without indented lines it is
/// empty.
pub proof fn law_margin_is_common(lines: Seq<Seq<char>>)
    ensures
        blank(margin(lines)),
        forall|i: int|
            0 <= i < lines.len() && indented(#[trigger] lines[i]) ==> margin(lines).is_prefix_of(
                lead(lines[i]),
            ),
        (forall|i: int| 0 <= i < lines.len() ==> !indented(#[trigger] lines[i])) ==> margin(
            lines,
        ).len() == 0,
{
    lemma_common_lead(lines, Seq::empty());
}

/// The margin is the longest such white space: whatever starts the white space in front of all the
/// indented lines, of which `k` is one, starts the margin.
pub proof fn law_margin_is_longest(lines: Seq<Seq<char>>, k: int, other: Seq<char>)
    requires
        0 <= k < lines.len(),
        indented(lines[k]),
        forall|i: int|
            0 <= i < lines.len() && indented(#[trigger] lines[i]) ==> other.is_prefix_of(
                lead(lines[i]),
            ),
    ensures
        other.is_prefix_of(margin(lines)),
{
    lemma_common_lead(lines, other);
}

/// A line loses white space at its start and nothing else: what it lost starts the margin as well.
pub proof fn law_line_loses_white_space(line: Seq<char>, margin: Seq<char>)
    requires
        blank(margin),
    ensures
        dedented_line(line, margin).len() <= line.len() <= dedented_line(line, margin).len()
            + margin.len(),
        ({
            let lost = margin.take(line.len() - dedented_line(line, margin).len());
            &&& line == lost + dedented_line(line, margin)
            &&& lead(line) == lost + lead(dedented_line(line, margin))
        }),
        blank(dedented_line(line, margin)) <==> blank(line),
{
    lemma_shared_len(line, margin);
    let n = shared_len(line, margin);
    let flat = dedented_line(line, margin);
    let lost = margin.take(n);
    assert(line =~= line.take(n) + flat);
    lemma_lead(flat);
    let m = lead(flat).len() as int;
    assert forall|i: int| 0 <= i < n + m implies white(#[trigger] line.take(n + m)[i]) by {
        if i < n {
            assert(line.take(n)[i] == margin.take(n)[i]);
            assert(white(margin[i]));
        } else {
            assert(lead(flat)[i - n] == line[i]);
        }
    }
    if n + m < line.len() {
        assert(flat[m] == line[n + m]);
    }
    lemma_lead_unique(line, n + m);
    assert(line.take(n + m) =~= lost + lead(flat));
    lemma_lead(line);
    if blank(flat) {
        assert(m == flat.len());
        assert(line.take(n + m) =~= line);
    }
    if blank(line) {
        assert forall|i: int| 0 <= i < flat.len() implies white(#[trigger] flat[i]) by {
            assert(flat[i] == line[n + i]);
        }
    }
}

/// Lines at the left edge stay as they are.
pub proof fn law_unindented_line_kept(line: Seq<char>, margin: Seq<char>)
    requires
        blank(margin),
        lead(line).len() == 0,
    ensures
        dedented_line(line, margin) == line,
{
    law_line_loses_white_space(line, margin);
    assert(line.skip(0) =~= line);
}

/// A text whose indented lines have no white space in common stays as it is, down to its line
/// endings.
pub proof fn law_text_without_margin_kept(text: Seq<char>)
    requires
        margin(lines(text)).len() == 0,
    ensures
        dedented(text) == text,
{
}

/// A text without indented lines stays as it is, down to its line endings.
pub proof fn law_unindented_text_kept(text: Seq<char>)
    requires
        forall|i: int| 0 <= i < lines(text).len() ==> !indented(#[trigger] lines(text)[i]),
    ensures
        dedented(text) == text,
{
    law_margin_is_common(lines(text));
}

/// Joining puts the first line and a line feed in front of the joined others.
pub(crate) proof fn lemma_joined_first(lines: Seq<Seq<char>>)
    requires
        lines.len() >= 2,
    ensures
        joined(lines) == lines[0].push('\n') + joined(lines.drop_first()),
    decreases lines.len(),
{
    let others = lines.drop_first();
    let before = lines.drop_last();
    if lines.len() == 2 {
        assert(joined(before) == lines[0]);
        assert(joined(others) == lines[1]);
    } else {
        lemma_joined_first(before);
        assert(before.drop_first() =~= others.drop_last());
        assert(joined(lines) =~= lines[0].push('\n') + (joined(before.drop_first()).push('\n')
            + lines.last()));
    }
}

/// Cut at its line feeds, a joined text gives back what was joined.
proof fn lemma_pieces_of_joined(ls: Seq<Seq<char>>)
    requires
        ls.len() > 0,
        forall|i: int| 0 <= i < ls.len() ==> !(#[trigger] ls[i]).contains('\n'),
    ensures
        pieces(joined(ls)) == ls,
    decreases ls.len(),
{
    if ls.len() == 1 {
        lemma_pieces_single(ls[0]);
        assert(ls =~= seq![ls[0]]);
    } else {
        let others = ls.drop_first();
        assert forall|i: int| 0 <= i < others.len() implies !(#[trigger] others[i]).contains(
            '\n',
        ) by {
            assert(others[i] == ls[i + 1]);
        }
        lemma_pieces_of_joined(others);
        lemma_joined_first(ls);
        lemma_pieces_cons(ls[0], joined(others));
        assert(ls =~= seq![ls[0]] + others);
    }
}

/// Dedented lines hold no line feed.
pub(crate) proof fn lemma_dedented_lines_hold_no_line_feed(text: Seq<char>, margin: Seq<char>)
    ensures
        forall|i: int|
            0 <= i < lines(text).len() ==> !(#[trigger] dedented_lines(
                lines(text),
                margin,
            )[i]).contains('\n'),
{
    let ls = lines(text);
    let flat = dedented_lines(ls, margin);
    lemma_lines_hold_no_line_feed(text);
    assert forall|i: int| 0 <= i < ls.len() implies !(#[trigger] flat[i]).contains('\n') by {
        lemma_shared_len(ls[i], margin);
        if flat[i].contains('\n') {
            let k = choose|k: int| 0 <= k < flat[i].len() && flat[i][k] == '\n';
            assert(ls[i][shared_len(ls[i], margin) + k] == '\n');
            assert(ls[i].contains('\n'));
        }
    }
}

/// Cut at its line feeds, a dedented text gives the lines of the text, each without the margin.
pub proof fn law_lines_kept(text: Seq<char>)
    requires
        margin(lines(text)).len() > 0,
    ensures
        pieces(dedented(text)) == dedented_lines(lines(text), margin(lines(text))),
{
    let m = margin(lines(text));
    lemma_dedented_lines_hold_no_line_feed(text, m);
    lemma_pieces_of_joined(dedented_lines(lines(text), m));
}

/// Every indented line of a text loses the margin, all of it and nothing more.
pub proof fn law_indented_line_loses_margin(text: Seq<char>, i: int)
    requires
        0 <= i < lines(text).len(),
        indented(lines(text)[i]),
    ensures
        i < pieces(dedented(text)).len(),
        lead(lines(text)[i]) == margin(lines(text)) + lead(pieces(dedented(text))[i]),
{
    let ls = lines(text);
    let m = margin(ls);
    let line = ls[i];
    law_margin_is_common(ls);
    lemma_lead(line);
    if m.len() == 0 {
        lemma_lines_are_pieces(text, i);
        let piece = pieces(text)[i];
        let n = lead(line).len() as int;
        assert(line[n] == piece[n]);
        assert(piece.take(n) =~= lead(line));
        lemma_lead_unique(piece, n);
        assert(lead(line) =~= m + lead(piece));
    } else {
        law_lines_kept(text);
        law_line_loses_white_space(line, m);
        lemma_shared_len(line, m);
        let n = shared_len(line, m);
        if n < m.len() {
            assert(m[n] == lead(line).subrange(0, m.len() as int)[n]);
            assert(lead(line)[n] == line[n]);
        }
        assert(m.take(m.len() as int) =~= m);
    }
}

/// Indented lines keep their depth relative to each other.
pub proof fn law_relative_depth_kept(text: Seq<char>, i: int, j: int)
    requires
        0 <= i < lines(text).len(),
        0 <= j < lines(text).len(),
        indented(lines(text)[i]),
        indented(lines(text)[j]),
    ensures
        ({
            let flat = pieces(dedented(text));
            lead(flat[i]).len() - lead(flat[j]).len() == lead(lines(text)[i]).len() - lead(
                lines(text)[j],
            ).len()
        }),
{
    law_indented_line_loses_margin(text, i);
    law_indented_line_loses_margin(text, j);
}

/// The margin is used up: whichever character `c` is, some indented line does not have it in front
/// of its remaining white space.
pub proof fn law_margin_is_used_up(text: Seq<char>, k: int, c: char)
    requires
        0 <= k < lines(text).len(),
        indented(lines(text)[k]),
    ensures
        exists|i: int|
            0 <= i < lines(text).len() && indented(#[trigger] lines(text)[i]) && !seq![
                c,
            ].is_prefix_of(lead(pieces(dedented(text))[i])),
{
    let ls = lines(text);
    let m = margin(ls);
    let flat = pieces(dedented(text));
    law_margin_is_common(ls);
    if forall|i: int|
        0 <= i < ls.len() && indented(#[trigger] ls[i]) ==> seq![c].is_prefix_of(lead(flat[i])) {
        let wider = m.push(c);
        assert forall|i: int|
            0 <= i < ls.len() && indented(#[trigger] ls[i]) implies wider.is_prefix_of(
            lead(ls[i]),
        ) by {
            law_indented_line_loses_margin(text, i);
            assert(seq![c][0] == lead(flat[i]).subrange(0, 1)[0]);
            assert(wider =~= lead(ls[i]).subrange(0, wider.len() as int));
        }
        law_margin_is_longest(ls, k, wider);
    }
}

/// Where all the indented lines are indented with spaces only, one of them ends up at the left
/// edge.
pub proof fn law_spaces_reach_left_edge(text: Seq<char>, k: int)
    requires
        0 <= k < lines(text).len(),
        indented(lines(text)[k]),
        forall|i: int, n: int|
            0 <= i < lines(text).len() && indented(lines(text)[i]) && 0 <= n < lead(
                lines(text)[i],
            ).len() ==> #[trigger] lead(lines(text)[i])[n] == ' ',
    ensures
        exists|i: int|
            0 <= i < lines(text).len() && indented(#[trigger] lines(text)[i]) && lead(
                pieces(dedented(text))[i],
            ).len() == 0,
{
    let ls = lines(text);
    let flat = pieces(dedented(text));
    law_margin_is_used_up(text, k, ' ');
    let i = choose|i: int|
        0 <= i < ls.len() && indented(#[trigger] ls[i]) && !seq![' '].is_prefix_of(lead(flat[i]));
    law_indented_line_loses_margin(text, i);
    if lead(flat[i]).len() > 0 {
        assert(lead(ls[i])[margin(ls).len() as int] == lead(flat[i])[0]);
        assert(seq![' '] =~= lead(flat[i]).subrange(0, 1));
    }
    assert(indented(ls[i]));
}

/// Two lines that show something behind white space keep their depth relative to each other.
pub proof fn law_lines_keep_their_depth(text: Seq<char>, i: int, j: int)
    requires
        0 <= i < lines(text).len(),
        0 <= j < lines(text).len(),
        !blank(lines(text)[i]) && white(lines(text)[i][0]),
        !blank(lines(text)[j]) && white(lines(text)[j][0]),
    ensures
        i < pieces(dedented(text)).len(),
        j < pieces(dedented(text)).len(),
        lead(pieces(dedented(text))[i]).len() - lead(pieces(dedented(text))[j]).len() == lead(
            lines(text)[i],
        ).len() - lead(lines(text)[j]).len(),
{
    lemma_lead(lines(text)[i]);
    lemma_lead(lines(text)[j]);
    law_indented_line_loses_margin(text, i);
    law_indented_line_loses_margin(text, j);
}

/// No white space is left that all the lines that show something behind white space have in common:
/// whichever character `c` is, one of them does not start with it any more.
pub proof fn law_no_common_white_space_left(text: Seq<char>, k: int, c: char)
    requires
        0 <= k < lines(text).len(),
        !blank(lines(text)[k]) && white(lines(text)[k][0]),
    ensures
        exists|i: int|
            0 <= i < lines(text).len() && !blank(#[trigger] lines(text)[i]) && white(
                lines(text)[i][0],
            ) && (lead(pieces(dedented(text))[i]).len() == 0 || lead(pieces(dedented(text))[i])[0]
                != c),
{
    let ls = lines(text);
    let flat = pieces(dedented(text));
    lemma_lead(ls[k]);
    law_margin_is_used_up(text, k, c);
    let i = choose|i: int|
        0 <= i < ls.len() && indented(#[trigger] ls[i]) && !seq![c].is_prefix_of(lead(flat[i]));
    lemma_lead(ls[i]);
    assert(lead(ls[i])[0] == ls[i][0]);
    if lead(flat[i]).len() > 0 && lead(flat[i])[0] == c {
        assert(seq![c] =~= lead(flat[i]).subrange(0, 1));
    }
    assert(!blank(ls[i]));
}

/// White space that starts all the lines that show something behind white space, and with no
/// further character would, is the margin.
proof fn lemma_margin_unique(ls: Seq<Seq<char>>, k: int, common: Seq<char>)
    requires
        0 <= k < ls.len(),
        !blank(ls[k]) && white(ls[k][0]),
        blank(common),
        forall|i: int|
            0 <= i < ls.len() && !blank(#[trigger] ls[i]) && white(ls[i][0])
                ==> common.is_prefix_of(ls[i]),
        forall|c: char|
            #![trigger common.push(c)]
            white(c) ==> exists|i: int|
                0 <= i < ls.len() && !blank(#[trigger] ls[i]) && white(ls[i][0])
                    && !common.push(c).is_prefix_of(ls[i]),
    ensures
        margin(ls) == common,
{
    let m = margin(ls);
    law_margin_is_common(ls);
    lemma_lead(ls[k]);
    assert forall|i: int| 0 <= i < ls.len() && indented(#[trigger] ls[i]) implies white(ls[i][0])
        && common.is_prefix_of(lead(ls[i])) by {
        let line = ls[i];
        lemma_lead(line);
        assert(lead(line)[0] == line[0]);
        assert(common.is_prefix_of(line));
        let n = lead(line).len() as int;
        if n < common.len() {
            assert(common[n] == line.subrange(0, common.len() as int)[n]);
        }
        assert(common =~= lead(line).subrange(0, common.len() as int));
    }
    law_margin_is_longest(ls, k, common);
    if common.len() < m.len() {
        let c = m[common.len() as int];
        let wider = common.push(c);
        assert(white(c));
        let i = choose|i: int|
            0 <= i < ls.len() && !blank(#[trigger] ls[i]) && white(ls[i][0])
                && !wider.is_prefix_of(ls[i]);
        let line = ls[i];
        lemma_lead(line);
        assert(indented(ls[i]));
        assert(m.is_prefix_of(lead(line)));
        assert forall|n: int| 0 <= n < wider.len() implies #[trigger] wider[n] == line[n] by {
            assert(m[n] == lead(line).subrange(0, m.len() as int)[n]);
            if n < common.len() {
                assert(common[n] == m.subrange(0, common.len() as int)[n]);
            }
        }
        assert(wider =~= line.subrange(0, wider.len() as int));
    }
    assert(common =~= m);
}

/// What dedenting does to every line. Let `common` be the longest white space that starts all the
/// lines that show something behind white space. If it is empty, the text stays as it is.
/// Otherwise each line loses as much of its start as it shares with `common`, and the lines come out
/// with line feeds between them.
pub proof fn law_dedented_text(text: Seq<char>, k: int, common: Seq<char>)
    requires
        0 <= k < lines(text).len(),
        !blank(lines(text)[k]) && white(lines(text)[k][0]),
        blank(common),
        forall|i: int|
            0 <= i < lines(text).len() && !blank(#[trigger] lines(text)[i]) && white(
                lines(text)[i][0],
            ) ==> common.is_prefix_of(lines(text)[i]),
        forall|c: char|
            #![trigger common.push(c)]
            white(c) ==> exists|i: int|
                0 <= i < lines(text).len() && !blank(#[trigger] lines(text)[i]) && white(
                    lines(text)[i][0],
                ) && !common.push(c).is_prefix_of(lines(text)[i]),
    ensures
        common.len() == 0 ==> dedented(text) == text,
        common.len() > 0 ==> pieces(dedented(text)).len() == lines(text).len(),
        common.len() > 0 ==> forall|i: int|
            0 <= i < lines(text).len() ==> {
                let line = #[trigger] lines(text)[i];
                let flat = pieces(dedented(text))[i];
                let lost = line.len() - flat.len();
                &&& 0 <= lost <= common.len()
                &&& line == common.take(lost) + flat
                &&& lost == common.len() || flat.len() == 0 || flat[0] != common[lost]
            },
{
    let ls = lines(text);
    let m = margin(ls);
    law_margin_is_common(ls);
    lemma_margin_unique(ls, k, common);
    if m.len() > 0 {
        law_lines_kept(text);
        assert forall|i: int| 0 <= i < ls.len() implies {
            let line = #[trigger] ls[i];
            let flat = pieces(dedented(text))[i];
            let lost = line.len() - flat.len();
            &&& 0 <= lost <= common.len()
            &&& line == common.take(lost) + flat
            &&& lost == common.len() || flat.len() == 0 || flat[0] != common[lost]
        } by {
            lemma_shared_len(ls[i], m);
            law_line_loses_white_space(ls[i], m);
        }
    }
}

/// A text in which every line is blank or starts with something visible stays as it is.
pub proof fn law_flush_text_kept(text: Seq<char>)
    requires
        forall|i: int|
            0 <= i < lines(text).len() ==> blank(#[trigger] lines(text)[i]) || !white(
                lines(text)[i][0],
            ),
    ensures
        dedented(text) == text,
{
    let ls = lines(text);
    assert forall|i: int| 0 <= i < ls.len() implies !indented(#[trigger] ls[i]) by {
        lemma_lead(ls[i]);
        if lead(ls[i]).len() > 0 {
            assert(lead(ls[i])[0] == ls[i][0]);
        }
    }
    law_unindented_text_kept(text);
}

} // verus!
