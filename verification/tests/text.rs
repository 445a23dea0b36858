use nix_eval_error::ansi::strip_leading_ansi;
use nix_eval_error::dedent::dedent_lines;
use nix_eval_error::whitespace::{is_blank, is_white, trim_end, trim_start};

/// Every text of up to `length` of the `tokens`.
fn texts(tokens: &[&str], length: usize) -> Vec<String> {
    let mut all = vec![String::new()];
    let mut from = 0;
    for _ in 0..length {
        let to = all.len();
        for i in from..to {
            for token in tokens {
                all.push(format!("{}{}", all[i], token));
            }
        }
        from = to;
    }
    all
}

#[test]
fn white_space_is_what_the_standard_library_takes_for_it() {
    for c in '\0'..=char::MAX {
        assert_eq!(is_white(c), c.is_whitespace(), "{:?}", c);
    }
}

#[test]
fn trimming_agrees_with_the_standard_library() {
    let tokens = [" ", "\t", "\n", "\u{a0}", "\u{3000}", "x", "é", "🦀"];
    for text in texts(&tokens, 5) {
        assert_eq!(trim_start(&text), text.trim_start());
        assert_eq!(trim_end(&text), text.trim_end());
        assert_eq!(is_blank(&text), text.trim().is_empty());
    }
}

#[test]
fn an_unclosed_code_stays() {
    assert_eq!(strip_leading_ansi("\u{1b}[31;1"), "\u{1b}[31;1");
    assert_eq!(strip_leading_ansi("\u{1b}["), "\u{1b}[");
    assert_eq!(strip_leading_ansi("\u{1b}[1m\u{1b}[31"), "\u{1b}[31");
}

#[test]
fn an_escape_without_a_bracket_stays() {
    assert_eq!(strip_leading_ansi("\u{1b}"), "\u{1b}");
    assert_eq!(strip_leading_ansi("\u{1b}m"), "\u{1b}m");
    assert_eq!(strip_leading_ansi("\u{1b}]0m"), "\u{1b}]0m");
}

#[test]
fn a_code_ends_at_the_first_m() {
    assert_eq!(strip_leading_ansi("\u{1b}[mm"), "m");
    assert_eq!(strip_leading_ansi("\u{1b}[é🦀mé"), "é");
}

#[test]
fn only_leading_codes_are_skipped() {
    assert_eq!(strip_leading_ansi(" \u{1b}[1mx"), " \u{1b}[1mx");
    assert_eq!(strip_leading_ansi("x\u{1b}[1m"), "x\u{1b}[1m");
    assert_eq!(strip_leading_ansi("\u{1b}[0m"), "");
}

#[test]
fn stripping_twice_is_stripping_once() {
    for text in texts(&["\u{1b}", "[", "m", "1", "é"], 6) {
        let once = strip_leading_ansi(&text);
        assert!(text.ends_with(once));
        assert_eq!(strip_leading_ansi(once), once);
        let colored = format!("\u{1b}[31;1m{}", text);
        assert_eq!(strip_leading_ansi(&colored), once);
    }
}

#[test]
fn the_least_indent_is_the_margin() {
    assert_eq!(dedent_lines("    a\n  b\n      c"), "  a\nb\n    c");
    assert_eq!(dedent_lines("  é\n   🦀"), "é\n 🦀");
}

#[test]
fn lines_at_the_left_edge_stay() {
    assert_eq!(dedent_lines("a\n    b\n      c"), "a\nb\n  c");
}

#[test]
fn blank_lines_do_not_set_the_margin() {
    assert_eq!(dedent_lines("    a\n \n\n    b"), "a\n\n\nb");
    assert_eq!(dedent_lines("    a\n      \n    b"), "a\n  \nb");
}

#[test]
fn any_white_space_is_indent() {
    assert_eq!(dedent_lines("\tfoo\n\tbar"), "foo\nbar");
    assert_eq!(dedent_lines("\ta\n\t\tb\nc"), "a\n\tb\nc");
    assert_eq!(dedent_lines("\u{a0}\u{3000}a\n\u{a0}b"), "\u{3000}a\nb");
}

#[test]
fn only_common_white_space_is_the_margin() {
    assert_eq!(dedent_lines("\ta\n  b"), "\ta\n  b");
    assert_eq!(dedent_lines("\ta\r\n  b\r\n"), "\ta\r\n  b\r\n");
    assert_eq!(dedent_lines("  \ta\n   b"), "\ta\n b");
    assert_eq!(dedent_lines(" \ta\n \t b\n \n\t\n"), "a\n b\n\n\t");
}

#[test]
fn a_text_without_indented_lines_stays_as_it_is() {
    for text in ["", "\n", "a", "a\n", "a\r\nb\r\n", "   ", "a\n  \nb\n\n"] {
        assert_eq!(dedent_lines(text), text);
    }
}

#[test]
fn dedented_lines_are_joined_by_line_feeds() {
    assert_eq!(dedent_lines("  a\r\n  b\r\n"), "a\nb");
    assert_eq!(dedent_lines("  a\r\r\n  b\r"), "a\r\nb\r");
    assert_eq!(dedent_lines("\ta\r\n\tb\n\n"), "a\nb\n");
    assert_eq!(dedent_lines("  a\n\n"), "a\n");
    assert_eq!(dedent_lines("\n  a\n"), "\na");
}

#[test]
fn dedenting_agrees_with_the_standard_library() {
    for text in texts(&[" ", "\n", "\r", "\t", "x", "\u{a0}"], 6) {
        let lead = |line: &str| -> String {
            line.chars().take_while(|c| c.is_whitespace()).collect()
        };
        let shared = |a: &str, b: &str| -> String {
            a.chars()
                .zip(b.chars())
                .take_while(|(x, y)| x == y)
                .map(|(x, _)| x)
                .collect()
        };
        let margin = text
            .lines()
            .filter(|line| !line.trim().is_empty())
            .map(lead)
            .filter(|indent| !indent.is_empty())
            .reduce(|a, b| shared(&a, &b))
            .unwrap_or_default();
        let expected = if margin.is_empty() {
            text.clone()
        } else {
            let lines: Vec<&str> = text
                .lines()
                .map(|line| &line[shared(line, &margin).len()..])
                .collect();
            lines.join("\n")
        };
        assert_eq!(dedent_lines(&text), expected, "{:?}", text);
    }
}

#[test]
fn indented_lines_keep_their_relative_depth() {
    let text = "       at a:\n          |  x\n          |   ^\n         at b:";
    assert_eq!(
        dedent_lines(text),
        "at a:\n   |  x\n   |   ^\n  at b:"
    );
}
