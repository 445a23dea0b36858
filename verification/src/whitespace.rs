//! White space: which characters it is made of, and trimming it off a text.

use crate::text::{byte_offset, char_width, lemma_offset_step, split_str};
use vstd::prelude::*;
use vstd::utf8::*;

verus! {

/// The characters that Unicode gives the `White_Space` property.
pub open spec fn white(c: char) -> bool {
    let code = c as u32;
    ||| 0x9 <= code <= 0xd
    ||| code == 0x20
    ||| code == 0x85
    ||| code == 0xa0
    ||| code == 0x1680
    ||| 0x2000 <= code <= 0x200a
    ||| code == 0x2028
    ||| code == 0x2029
    ||| code == 0x202f
    ||| code == 0x205f
    ||| code == 0x3000
}

/// A text without any visible character.
pub open spec fn blank(s: Seq<char>) -> bool {
    forall|i: int| 0 <= i < s.len() ==> white(#[trigger] s[i])
}

/// `s` without the white space that it starts with.
pub open spec fn trimmed_start(s: Seq<char>) -> Seq<char>
    decreases s.len(),
{
    if s.len() > 0 && white(s[0]) {
        trimmed_start(s.drop_first())
    } else {
        s
    }
}

/// The white space that `s` starts with.
pub open spec fn lead(s: Seq<char>) -> Seq<char> {
    s.take(s.len() - trimmed_start(s).len())
}

/// `s` without the white space that it ends with.
pub open spec fn trimmed_end(s: Seq<char>) -> Seq<char>
    decreases s.len(),
{
    if s.len() > 0 && white(s.last()) {
        trimmed_end(s.drop_last())
    } else {
        s
    }
}

/// What `trimmed_start` drops is blank, and what it keeps does not start with white space.
pub proof fn lemma_trimmed_start(s: Seq<char>)
    ensures
        trimmed_start(s).len() <= s.len(),
        trimmed_start(s) == s.skip(s.len() - trimmed_start(s).len()),
        blank(s.take(s.len() - trimmed_start(s).len())),
        trimmed_start(s).len() > 0 ==> !white(trimmed_start(s)[0]),
        blank(s) <==> trimmed_start(s).len() == 0,
    decreases s.len(),
{
    if s.len() > 0 && white(s[0]) {
        let rest = s.drop_first();
        lemma_trimmed_start(rest);
        let n = s.len() - trimmed_start(s).len();
        assert(s.skip(n) =~= rest.skip(n - 1));
        assert forall|i: int| 0 <= i < n implies white(#[trigger] s.take(n)[i]) by {
            if i > 0 {
                assert(rest.take(n - 1)[i - 1] == s[i]);
            }
        }
        if blank(rest) {
            assert forall|i: int| 0 <= i < s.len() implies white(#[trigger] s[i]) by {
                if i > 0 {
                    assert(rest[i - 1] == s[i]);
                }
            }
        }
        if blank(s) {
            assert forall|i: int| 0 <= i < rest.len() implies white(#[trigger] rest[i]) by {
                assert(rest[i] == s[i + 1]);
            }
        }
    } else {
        assert(s.skip(0) =~= s);
    }
}

/// A text is its lead and what is left of it.
pub proof fn lemma_lead(s: Seq<char>)
    ensures
        s == lead(s) + trimmed_start(s),
        blank(lead(s)),
        blank(s) <==> lead(s) == s,
        lead(s).len() < s.len() ==> !white(s[lead(s).len() as int]),
{
    lemma_trimmed_start(s);
    let n = s.len() - trimmed_start(s).len();
    assert(s =~= s.take(n) + s.skip(n));
    assert(s.take(s.len() as int) =~= s);
}

/// White space up to the first other character, or up to the end, is the lead.
pub proof fn lemma_lead_unique(s: Seq<char>, n: int)
    requires
        0 <= n <= s.len(),
        blank(s.take(n)),
        n < s.len() ==> !white(s[n]),
    ensures
        lead(s) == s.take(n),
{
    lemma_lead(s);
    let m = lead(s).len() as int;
    if n < m {
        assert(lead(s)[n] == s[n]);
    } else if m < n {
        assert(s.take(n)[m] == s[m]);
    }
}

/// What `trimmed_end` drops is blank, and what it keeps does not end with white space.
pub proof fn lemma_trimmed_end(s: Seq<char>)
    ensures
        trimmed_end(s).len() <= s.len(),
        trimmed_end(s) == s.take(trimmed_end(s).len() as int),
        blank(s.skip(trimmed_end(s).len() as int)),
        trimmed_end(s).len() > 0 ==> !white(trimmed_end(s).last()),
        blank(s) <==> trimmed_end(s).len() == 0,
    decreases s.len(),
{
    if s.len() > 0 && white(s.last()) {
        let lead = s.drop_last();
        lemma_trimmed_end(lead);
        let n = trimmed_end(s).len() as int;
        assert(s.take(n) =~= lead.take(n));
        assert forall|i: int| 0 <= i < s.len() - n implies white(#[trigger] s.skip(n)[i]) by {
            if i < lead.len() - n {
                assert(lead.skip(n)[i] == s[n + i]);
            }
        }
        if blank(lead) {
            assert forall|i: int| 0 <= i < s.len() implies white(#[trigger] s[i]) by {
                if i < lead.len() {
                    assert(lead[i] == s[i]);
                }
            }
        }
        if blank(s) {
            assert forall|i: int| 0 <= i < lead.len() implies white(#[trigger] lead[i]) by {
                assert(lead[i] == s[i]);
            }
        }
    } else {
        assert(s.take(s.len() as int) =~= s);
    }
}

/// The start of a trimmed text is the first character that is no white space.
pub proof fn lemma_trimmed_start_unique(s: Seq<char>, n: int)
    requires
        0 <= n < s.len(),
        blank(s.take(n)),
        !white(s[n]),
    ensures
        trimmed_start(s) == s.skip(n),
{
    lemma_trimmed_start(s);
    let m = s.len() - trimmed_start(s).len();
    if n < m {
        assert(s.take(m)[n] == s[n]);
    } else if m < n {
        assert(s.take(n)[m] == s[m]);
    }
}

/// White space in front of a text is trimmed with the text's own.
pub proof fn lemma_trimmed_start_skip(s: Seq<char>, n: int)
    requires
        0 <= n <= s.len(),
        blank(s.take(n)),
    ensures
        trimmed_start(s) == trimmed_start(s.skip(n)),
    decreases n,
{
    if n > 0 {
        let rest = s.drop_first();
        assert(s.take(n)[0] == s[0]);
        assert forall|i: int| 0 <= i < n - 1 implies white(#[trigger] rest.take(n - 1)[i]) by {
            assert(s.take(n)[i + 1] == rest[i]);
        }
        lemma_trimmed_start_skip(rest, n - 1);
        assert(rest.skip(n - 1) =~= s.skip(n));
    } else {
        assert(s.skip(0) =~= s);
    }
}

/// The end of a trimmed text is where only white space follows and none precedes.
pub proof fn lemma_trimmed_end_unique(s: Seq<char>, n: int)
    requires
        0 <= n <= s.len(),
        blank(s.skip(n)),
        n > 0 ==> !white(s[n - 1]),
    ensures
        trimmed_end(s) == s.take(n),
{
    lemma_trimmed_end(s);
    let m = trimmed_end(s).len() as int;
    if n < m {
        assert(s.skip(n)[m - 1 - n] == s[m - 1]);
    } else if m < n {
        assert(s.skip(m)[n - 1 - m] == s[n - 1]);
    }
}

/// White space is the tab, the line feed, the vertical tab, the form feed, the carriage return, the
/// next-line character, the line and paragraph separators, and the spaces of all widths.
pub proof fn law_white_characters(c: char)
    ensures
        white(c) <==> {
            ||| c == '\t' || c == '\n' || c == '\u{b}' || c == '\u{c}' || c == '\r' || c == ' '
            ||| c == '\u{85}' || c == '\u{a0}' || c == '\u{1680}'
            ||| c == '\u{2000}' || c == '\u{2001}' || c == '\u{2002}' || c == '\u{2003}'
            ||| c == '\u{2004}' || c == '\u{2005}' || c == '\u{2006}' || c == '\u{2007}'
            ||| c == '\u{2008}' || c == '\u{2009}' || c == '\u{200a}'
            ||| c == '\u{2028}' || c == '\u{2029}' || c == '\u{202f}' || c == '\u{205f}'
            ||| c == '\u{3000}'
        },
{
}

/// An empty text is blank, and a longer one is blank where each of its characters is white space.
pub proof fn law_blank_by_characters(s: Seq<char>, c: char)
    ensures
        blank(Seq::<char>::empty()),
        blank(s.push(c)) <==> blank(s) && white(c),
{
    let longer = s.push(c);
    if blank(longer) {
        assert(longer[s.len() as int] == c);
        assert forall|i: int| 0 <= i < s.len() implies white(#[trigger] s[i]) by {
            assert(longer[i] == s[i]);
        }
    }
}

/// White space in front of a text that starts with something else is its lead, and trimming the
/// start takes off that and no more.
pub proof fn law_lead_is_trimmed(indent: Seq<char>, shown: Seq<char>)
    requires
        blank(indent),
        shown.len() == 0 || !white(shown[0]),
    ensures
        lead(indent + shown) == indent,
        trimmed_start(indent + shown) == shown,
{
    let s = indent + shown;
    let n = indent.len() as int;
    assert(s.take(n) =~= indent);
    assert(s.skip(n) =~= shown);
    lemma_lead_unique(s, n);
    lemma_lead(s);
    assert(s.skip(lead(s).len() as int) =~= trimmed_start(s));
}

/// White space behind a text that ends with something else is what trimming the end takes off.
pub proof fn law_end_is_trimmed(shown: Seq<char>, end: Seq<char>)
    requires
        blank(end),
        shown.len() == 0 || !white(shown.last()),
    ensures
        trimmed_end(shown + end) == shown,
{
    let s = shown + end;
    let n = shown.len() as int;
    assert(s.skip(n) =~= end);
    assert(s.take(n) =~= shown);
    lemma_trimmed_end_unique(s, n);
}

/// Whether `c` is white space.
pub fn is_white(c: char) -> (answer: bool)
    ensures
        answer == white(c),
{
    let code: u32 = c as u32;
    (0x9 <= code && code <= 0xd) || code == 0x20 || code == 0x85 || code == 0xa0 || code == 0x1680
        || (0x2000 <= code && code <= 0x200a) || code == 0x2028 || code == 0x2029 || code == 0x202f
        || code == 0x205f || code == 0x3000
}

/// Cuts the white space that `s` starts with off the rest of it.
pub fn split_lead(s: &str) -> (parts: (&str, &str))
    ensures
        parts.0@ == lead(s@),
        parts.1@ == trimmed_start(s@),
{
    let total: usize = s.as_bytes().len();
    let mut chars = s.chars();
    let mut at: usize = 0;
    let ghost mut k: int = 0;
    assert(s@.skip(0) =~= s@);
    assert(s@.take(0) =~= Seq::<char>::empty());
    loop
        invariant
            0 <= k <= s@.len(),
            at == byte_offset(s@, k),
            total == encode_utf8(s@).len(),
            vstd::std_specs::iter::IteratorSpec::remaining(&chars) == s@.skip(k),
            trimmed_start(s@) == trimmed_start(s@.skip(k)),
        decreases s@.len() - k,
    {
        match chars.next() {
            Some(c) if is_white(c) => {
                proof {
                    lemma_offset_step(s@, k);
                    assert(s@.skip(k).drop_first() =~= s@.skip(k + 1));
                    k = k + 1;
                }
                at = at + char_width(c);
            },
            _ => {
                return split_str(s, at, Ghost(k));
            },
        }
    }
}

/// `s` without the white space that it starts with.
pub fn trim_start(s: &str) -> (trimmed: &str)
    ensures
        trimmed@ == trimmed_start(s@),
{
    split_lead(s).1
}

/// `s` without the white space that it ends with.
pub fn trim_end(s: &str) -> (trimmed: &str)
    ensures
        trimmed@ == trimmed_end(s@),
{
    let total: usize = s.as_bytes().len();
    let mut chars = s.chars();
    let mut at: usize = 0;
    let mut end: usize = 0;
    let ghost mut k: int = 0;
    let ghost mut n: int = 0;
    assert(s@.skip(0) =~= s@);
    assert(s@.take(0) =~= Seq::<char>::empty());
    loop
        invariant
            0 <= n <= k <= s@.len(),
            at == byte_offset(s@, k),
            end == byte_offset(s@, n),
            total == encode_utf8(s@).len(),
            vstd::std_specs::iter::IteratorSpec::remaining(&chars) == s@.skip(k),
            forall|i: int| n <= i < k ==> white(#[trigger] s@[i]),
            n > 0 ==> !white(s@[n - 1]),
        decreases s@.len() - k,
    {
        match chars.next() {
            Some(c) => {
                proof {
                    lemma_offset_step(s@, k);
                    assert(s@.skip(k).drop_first() =~= s@.skip(k + 1));
                    k = k + 1;
                }
                at = at + char_width(c);
                if !is_white(c) {
                    end = at;
                    proof {
                        n = k;
                    }
                }
            },
            None => {
                proof {
                    lemma_trimmed_end_unique(s@, n);
                }
                return split_str(s, end, Ghost(n)).0;
            },
        }
    }
}

/// Whether `s` holds no visible character.
pub fn is_blank(s: &str) -> (answer: bool)
    ensures
        answer == blank(s@),
{
    proof {
        lemma_trimmed_start(s@);
    }
    trim_start(s).is_empty()
}

} // verus!
