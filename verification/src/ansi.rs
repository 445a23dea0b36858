//! Leading terminal colour codes.

use crate::text::{find_ascii, lemma_ascii_char_byte, split_str, starts_with};
use vstd::prelude::*;
use vstd::utf8::*;

verus! {

/// The length of the SGR escape sequence (`ESC [ ... m`) that `s` starts with, if it starts with
/// one. The sequence ends at the first `m`.
pub open spec fn sgr_len(s: Seq<char>) -> Option<int> {
    if s.len() >= 2 && s[0] == '\u{1b}' && s[1] == '[' {
        match s.skip(2).index_of_first('m') {
            Some(k) => Some(k + 3),
            None => None,
        }
    } else {
        None
    }
}

/// `s` without the SGR escape sequences that it starts with.
pub open spec fn without_leading_ansi(s: Seq<char>) -> Seq<char>
    decreases s.len(),
{
    match sgr_len(s) {
        Some(n) => {
            proof {
                s.skip(2).index_of_first_ensures('m');
            }
            without_leading_ansi(s.skip(n))
        },
        None => s,
    }
}

/// What is left of a text is its end, and does not start with another escape sequence.
pub proof fn law_ansi_suffix(s: Seq<char>)
    ensures
        without_leading_ansi(s).len() <= s.len(),
        without_leading_ansi(s) == s.skip(s.len() - without_leading_ansi(s).len()),
        sgr_len(without_leading_ansi(s)) is None,
    decreases s.len(),
{
    match sgr_len(s) {
        Some(n) => {
            s.skip(2).index_of_first_ensures('m');
            law_ansi_suffix(s.skip(n));
            let v = without_leading_ansi(s);
            assert(v =~= s.skip(s.len() - v.len()));
        },
        None => {
            assert(s.skip(0) =~= s);
        },
    }
}

/// Stripping a second time changes nothing.
pub proof fn law_ansi_idempotent(s: Seq<char>)
    ensures
        without_leading_ansi(without_leading_ansi(s)) == without_leading_ansi(s),
{
    law_ansi_suffix(s);
}

/// A text that does not start with `ESC [`, or never closes it with an `m`, is left alone.
pub proof fn law_ansi_plain(s: Seq<char>)
    requires
        !seq!['\u{1b}', '['].is_prefix_of(s) || !s.skip(2).contains('m'),
    ensures
        without_leading_ansi(s) == s,
{
    if s.len() >= 2 && s[0] == '\u{1b}' && s[1] == '[' {
        assert(seq!['\u{1b}', '['] =~= s.subrange(0, 2));
        s.skip(2).index_of_first_ensures('m');
    }
}

/// An escape sequence in front of a text is skipped, whatever its parameters are.
pub proof fn law_ansi_code(parameters: Seq<char>, s: Seq<char>)
    requires
        !parameters.contains('m'),
    ensures
        without_leading_ansi(seq!['\u{1b}', '['] + parameters + seq!['m'] + s)
            == without_leading_ansi(s),
{
    let colored = seq!['\u{1b}', '['] + parameters + seq!['m'] + s;
    let body = colored.skip(2);
    let n = parameters.len() as int;
    body.index_of_first_ensures('m');
    assert(body[n] == 'm');
    assert(body.contains('m'));
    let k = body.index_of_first('m')->0;
    if k < n {
        assert(body[k] == parameters[k]);
        assert(parameters.contains('m'));
    }
    assert(k == n);
    assert(colored.skip(n + 3) =~= s);
}

/// Any number of escape sequences in front of a text are skipped. Each of `codes` is `ESC`, `[`, and
/// what follows up to the first `m`.
pub proof fn law_ansi_codes(codes: Seq<Seq<char>>, s: Seq<char>)
    requires
        forall|i: int|
            0 <= i < codes.len() ==> (#[trigger] codes[i]).len() >= 3 && codes[i][0] == '\u{1b}'
                && codes[i][1] == '[' && codes[i].skip(2).index_of_first('m') == Some(
                codes[i].len() - 3,
            ),
    ensures
        without_leading_ansi(codes.flatten() + s) == without_leading_ansi(s),
    decreases codes.len(),
{
    if codes.len() == 0 {
        assert(codes.flatten() + s =~= s);
    } else {
        let code = codes[0];
        let others = codes.drop_first();
        assert forall|i: int| 0 <= i < others.len() implies #[trigger] others[i] == codes[i + 1] by {}
        law_ansi_codes(others, s);
        let n = code.len() - 3;
        let parameters = code.subrange(2, n + 2);
        code.skip(2).index_of_first_ensures('m');
        if parameters.contains('m') {
            let k = choose|k: int| 0 <= k < parameters.len() && parameters[k] == 'm';
            assert(code.skip(2)[k] == 'm');
        }
        assert(code.skip(2)[n] == code[n + 2]);
        law_ansi_code(parameters, others.flatten() + s);
        assert(codes.flatten() + s =~= seq!['\u{1b}', '['] + parameters + seq!['m'] + (
        others.flatten() + s));
    }
}

/// Which escape sequences are skipped depends on them and on the character behind them alone.
pub(crate) proof fn lemma_ansi_local(s: Seq<char>, t: Seq<char>)
    requires
        without_leading_ansi(s).len() > 0,
        without_leading_ansi(s)[0] != '\u{1b}',
        s.len() - without_leading_ansi(s).len() < t.len(),
        forall|i: int|
            0 <= i <= s.len() - without_leading_ansi(s).len() ==> #[trigger] t[i] == s[i],
    ensures
        without_leading_ansi(t) == t.skip(s.len() - without_leading_ansi(s).len()),
    decreases s.len(),
{
    law_ansi_suffix(s);
    let removed = s.len() - without_leading_ansi(s).len();
    match sgr_len(s) {
        Some(n) => {
            s.skip(2).index_of_first_ensures('m');
            law_ansi_suffix(s.skip(n));
            t.skip(2).index_of_first_ensures('m');
            assert(t[0] == s[0] && t[1] == s[1]);
            assert(t.skip(2)[n - 3] == t[n - 1]);
            assert(t[n - 1] == s[n - 1]);
            assert(s.skip(2)[n - 3] == 'm');
            assert(t.skip(2).contains('m'));
            let k = t.skip(2).index_of_first('m')->0;
            if k < n - 3 {
                assert(t[k + 2] == s[k + 2]);
                assert(s.skip(2)[k] == s[k + 2]);
            }
            assert(sgr_len(t) == Some(n));
            assert forall|i: int| 0 <= i <= removed - n implies #[trigger] t.skip(n)[i] == s.skip(
                n,
            )[i] by {
                assert(t[n + i] == s[n + i]);
            }
            lemma_ansi_local(s.skip(n), t.skip(n));
            assert(t.skip(n).skip(removed - n) =~= t.skip(removed));
        },
        None => {
            assert(t[0] == s[0]);
            assert(t.skip(0) =~= t);
        },
    }
}

/// Skips the SGR escape sequences (`ESC [ ... m`) that `s` starts with, so that callers can match
/// on the first visible characters of a coloured log line. Nix logs lines such as
/// `\x1b[31;1merror:\x1b[0m ...`, whose colour codes hide the `error:` keyword.
///
/// An escape sequence that is never closed by an `m` is left in place.
pub fn strip_leading_ansi(s: &str) -> (visible: &str)
    ensures
        visible@ == without_leading_ansi(s@),
{
    let mut rest = s;
    loop
        invariant
            without_leading_ansi(s@) == without_leading_ansi(rest@),
        decreases rest@.len(),
    {
        proof {
            reveal_strlit("\u{1b}[");
        }
        if !starts_with(rest, "\u{1b}[") {
            assert(sgr_len(rest@) is Some ==> rest@.subrange(0, 2) =~= "\u{1b}["@);
            return rest;
        }
        proof {
            assert(rest@[0] == rest@.subrange(0, 2)[0]);
            assert(rest@[1] == rest@.subrange(0, 2)[1]);
            assert(rest@.take(2) =~= "\u{1b}["@);
            is_ascii_chars_encode_utf8(rest@.take(2));
        }
        let (_, body) = split_str(rest, 2, Ghost(2));
        proof {
            body@.index_of_first_ensures('m');
        }
        match find_ascii(body, 'm') {
            Some(i) => {
                let ghost k = body@.index_of_first('m')->0;
                proof {
                    lemma_ascii_char_byte(body@, k);
                }
                let (_, after) = split_str(body, i + 1, Ghost(k + 1));
                assert(after@ =~= rest@.skip(k + 3));
                rest = after;
            },
            None => {
                return rest;
            },
        }
    }
}

} // verus!
