use nix_eval_error::{
    dedent_lines, eval_error_text, format_eval_error, split_at, split_trailing_error,
};

#[test]
fn split_at_trims_the_end_of_both_sides() {
    assert_eq!(split_at("  a \n b \n", 5), (Some("  a"), " b"));
    assert_eq!(split_at("… é\u{a0}🦀\u{3000}", 8), (Some("… é"), "🦀"));
}

#[test]
fn split_at_reports_a_blank_lead_as_no_trace() {
    assert_eq!(split_at("error: a ", 0), (None, "error: a"));
    assert_eq!(split_at(" \n\u{2003}x", 5), (None, "x"));
    assert_eq!(split_at("a ", 2), (Some("a"), ""));
    assert_eq!(split_at("", 0), (None, ""));
}

#[test]
fn a_text_that_is_not_split_stays_as_it_is() {
    for text in ["", "\n", "prose \n", "Error: x", " errors: x", "error :", "a\nerror: b \n"] {
        assert_eq!(split_trailing_error(text), (None, text));
    }
}

#[test]
fn an_error_line_must_follow_a_blank_line() {
    assert_eq!(
        split_trailing_error("frame\nerror: a\n\nerror: b"),
        (Some("frame\nerror: a"), "error: b")
    );
    assert_eq!(
        split_trailing_error("frame\n \t\r\nerror: a"),
        (Some("frame"), "error: a")
    );
    assert_eq!(
        split_trailing_error("frame\n\u{a0}\u{3000}\nerror: a"),
        (Some("frame"), "error: a")
    );
}

#[test]
fn indentation_and_colors_do_not_hide_the_keyword() {
    assert_eq!(
        split_trailing_error("frame\n\n \t\u{1b}[31m\u{1b}[1merror:"),
        (Some("frame"), " \t\u{1b}[31m\u{1b}[1merror:")
    );
    assert_eq!(
        split_trailing_error("frame\n\n\u{1b}[31m error:").0,
        None
    );
}

#[test]
fn what_follows_the_first_paragraph_belongs_to_it() {
    let text = "frame\n\nerror: a";
    assert_eq!(split_trailing_error(text), (Some("frame"), "error: a"));
    for more in ["!", "\nx", "\n\nerror: b", "\n\nerror: b\n\nerror: c"] {
        let longer = format!("{}{}", text, more);
        let block = format!("error: a{}", more);
        assert_eq!(
            split_trailing_error(&longer),
            (Some("frame"), block.as_str())
        );
    }
}

#[test]
fn blank_lines_before_the_first_paragraph_are_something_before_it() {
    assert_eq!(
        split_trailing_error("\nerror: a\n\nerror: b"),
        (None, "error: a\n\nerror: b")
    );
}

#[test]
fn the_last_chained_error_wins() {
    assert_eq!(
        split_trailing_error("  error: a\n\nframe\n\nerror: b\n\nnote\n"),
        (Some("  error: a\n\nframe"), "error: b\n\nnote")
    );
    assert_eq!(split_trailing_error("error: a\n"), (None, "error: a"));
}

/// Every text of up to `length` of the `tokens`.
fn texts(tokens: &[&str], length: usize) -> Vec<String> {
    let mut all = vec![String::new()];
    let mut from = 0;
    for _ in 0..length {
        let to = all.len();
        for i in from..to {
            for token in tokens {
                all.push(format!("{}{}", all[i], token));
            }
        }
        from = to;
    }
    all
}

#[test]
fn splitting_follows_the_paragraphs_of_a_text() {
    let tokens = ["error:", "\n", " ", "é", "\r\n", "\u{1b}[1m"];
    for text in texts(&tokens, 6) {
        let mut starts: Vec<usize> = Vec::new();
        let mut offset = 0;
        let mut blank = true;
        for line in text.split_inclusive('\n') {
            let mut shown = line.trim_start();
            while shown.starts_with("\u{1b}[1m") {
                shown = &shown["\u{1b}[1m".len()..];
            }
            if blank && shown.starts_with("error:") {
                starts.push(offset);
            }
            blank = line.trim().is_empty();
            offset += line.len();
        }
        let chosen = match starts.first() {
            Some(0) => starts.last(),
            first => first,
        };
        let expected = match chosen {
            None => (None, text.as_str()),
            Some(&p) => {
                let trace = text[..p].trim_end();
                (
                    if trace.is_empty() { None } else { Some(trace) },
                    text[p..].trim_end(),
                )
            }
        };
        assert_eq!(split_trailing_error(&text), expected, "{:?}", text);
    }
}

#[test]
fn the_parts_make_up_the_text() {
    for text in texts(&["error:", "\n\n", " ", "x", "\u{a0}"], 6) {
        let (trace, block) = split_trailing_error(&text);
        let visible = |s: &str| -> String { s.split_whitespace().collect() };
        let both = format!("{}{}", visible(trace.unwrap_or("")), visible(block));
        assert_eq!(both, visible(&text));
        assert_ne!(trace, Some(""));
    }
}

#[test]
fn a_diagnostic_has_a_message_and_a_help() {
    let diag = format_eval_error("  frame\n    deeper\n\n  error: boom\n", "ctx");
    assert_eq!(diag.message, "ctx: error: boom");
    assert_eq!(
        diag.help,
        Some("Nix evaluation trace:\n\nframe\n  deeper".to_string())
    );
    assert_eq!(diag.code, None);
    assert_eq!(diag.severity, None);
    assert_eq!(diag.url, None);
    assert_eq!(diag.labels, None);
}

#[test]
fn a_diagnostic_without_a_trace_has_no_help() {
    let diag = format_eval_error("error: a\n       at b:", "ctx");
    assert_eq!(diag.message, "ctx: error: a\nat b:");
    assert_eq!(diag.help, None);
    assert_eq!(diag.code, None);
    assert_eq!(diag.severity, None);
    assert_eq!(diag.url, None);
    assert_eq!(diag.labels, None);
}

#[test]
fn an_unexpected_text_is_the_whole_message() {
    let diag = format_eval_error("  a\r\n  b\n", "");
    assert_eq!(diag.message, ": a\nb");
    assert_eq!(diag.help, None);
    assert_eq!(format_eval_error("", "ctx").message, "ctx: ");
    assert_eq!(format_eval_error("x \n", "ctx").message, "ctx: x \n");
}

#[test]
fn the_texts_are_those_of_the_diagnostic() {
    for raw in texts(&["  error:", "\n\n", "  frame", "\n"], 5) {
        let texts = eval_error_text(&raw, "ctx");
        let diag = format_eval_error(&raw, "ctx");
        assert_eq!(texts.message, diag.message);
        assert_eq!(texts.help, diag.help);
        assert!(texts.message.starts_with("ctx: "));
    }
}

#[test]
fn dedenting_keeps_the_line_of_the_split() {
    let raw = "    frame\r\n\t\r\n      error: a\n\n    error: b\n";
    assert_eq!(
        split_trailing_error(raw),
        (Some("    frame"), "      error: a\n\n    error: b")
    );
    assert_eq!(
        split_trailing_error(&dedent_lines(raw)),
        (Some("frame"), "  error: a\n\nerror: b")
    );
    for raw in texts(&["  ", "error:", "\n", "x", "\r\n", "\t"], 6) {
        let flat = dedent_lines(&raw);
        let (trace, block) = split_trailing_error(&raw);
        let (flat_trace, flat_block) = split_trailing_error(&flat);
        let visible = |s: &str| -> String { s.split_whitespace().collect() };
        assert_eq!(visible(trace.unwrap_or("")), visible(flat_trace.unwrap_or("")));
        assert_eq!(visible(block), visible(flat_block));
    }
}
