use nix_eval_error::{format_eval_error, split_trailing_error, strip_leading_ansi};

#[test]
fn split_trailing_error_last_wins_for_four_chained_errors() {
    // With no leading trace and several chained `error:` paragraphs, only the
    // last paragraph becomes the headline.
    let text = "error: A\n\nerror: B\n\nerror: C\n\nerror: D";
    let (trace, tail) = split_trailing_error(text);
    assert_eq!(trace, Some("error: A\n\nerror: B\n\nerror: C"));
    assert_eq!(tail, "error: D");
}

#[test]
fn strip_leading_ansi_handles_no_codes() {
    assert_eq!(strip_leading_ansi("error: plain"), "error: plain");
    assert_eq!(strip_leading_ansi(""), "");
}

#[test]
fn strip_leading_ansi_skips_sgr_sequences() {
    assert_eq!(
        strip_leading_ansi("\u{1b}[31;1merror:\u{1b}[0m foo"),
        "error:\u{1b}[0m foo"
    );
    assert_eq!(strip_leading_ansi("\u{1b}[31m\u{1b}[1merror:"), "error:");
}

#[test]
fn split_trailing_error_returns_text_when_no_error_line() {
    let (trace, tail) = split_trailing_error("just some prose\nwith no error keyword");
    assert_eq!(trace, None);
    assert_eq!(tail, "just some prose\nwith no error keyword");
}

#[test]
fn split_trailing_error_extracts_final_error_block() {
    // A missing input: Nix emits `--show-trace` frames followed by the
    // actionable `error: Failed assertions:` block. Surface the block.
    let text = "\
… from call site
  at /tmp/devenv.nix:1:1:
… while calling 'throw' builtin
  at /nix/store/.../top-level.nix:45:7:

error: Failed assertions:
- To use 'git-hooks', run the following command:

    $ devenv inputs add git-hooks github:cachix/git-hooks.nix --follows nixpkgs";
    let (trace, tail) = split_trailing_error(text);
    let trace = trace.expect("leading frames should be returned as the trace");
    assert!(trace.starts_with("… from call site"));
    assert!(trace.ends_with("top-level.nix:45:7:"));
    assert!(tail.starts_with("error: Failed assertions:"));
    assert!(tail.contains("devenv inputs add git-hooks"));
}

#[test]
fn split_trailing_error_picks_last_error_when_multiple_present() {
    // Two error paragraphs separated by a blank line (how Nix renders
    // chained errors via `addErrorContext` and friends). The newer one
    // at the bottom wins; the older one stays in the trace.
    let text = "error: first error\n  some context\n\nerror: real error\n  details";
    let (trace, tail) = split_trailing_error(text);
    assert_eq!(trace, Some("error: first error\n  some context"));
    assert_eq!(tail, "error: real error\n  details");
}

#[test]
fn split_trailing_error_ignores_error_keyword_inside_user_throw_body() {
    // A multi-line user throw: a `throw ''…''` whose
    // body happens to contain `error: ` on one of its lines (without a
    // preceding blank line) must not be picked as the split point. The
    // real Nix `error:` keyword that opens the paragraph is what wins.
    let text = "\
… while calling the 'throw' builtin
  at /tmp/devenv.nix:3:15:

error: Step 1: do this
error: but this is the actual problem
Step 3: then this";
    let (trace, tail) = split_trailing_error(text);
    let trace = trace.expect("the throw frames should be returned as the trace");
    assert!(trace.contains("… while calling the 'throw' builtin"));
    assert!(
        tail.starts_with("error: Step 1: do this"),
        "headline should open with Nix's real error keyword (the first \
         error line), not pick the user's literal `error:` text from \
         the middle of the throw body. tail was: {tail}"
    );
    assert!(
        tail.contains("but this is the actual problem"),
        "the rest of the user's throw body should stay in the headline"
    );
    assert!(
        tail.ends_with("Step 3: then this"),
        "the trailing user line should stay in the headline"
    );
}

#[test]
fn split_trailing_error_ignores_error_paragraph_inside_user_throw_body() {
    // Same as above, but with a blank line before the user's literal
    // `error:` line. Once the Nix boundary is found, later paragraphs are
    // still part of the user-facing error body.
    let text = "\
… while calling the 'throw' builtin
  at /tmp/devenv.nix:3:15:

error: Step 1: do this

error: but this is the actual problem
Step 3: then this";
    let (trace, tail) = split_trailing_error(text);
    let trace = trace.expect("the throw frames should be returned as the trace");
    assert!(trace.contains("… while calling the 'throw' builtin"));
    assert!(
        tail.starts_with("error: Step 1: do this"),
        "headline should open with Nix's real error keyword. tail was: {tail}"
    );
    assert!(
        tail.contains("\n\nerror: but this is the actual problem"),
        "the blank-line paragraph inside the throw body should stay in the headline"
    );
    assert!(tail.ends_with("Step 3: then this"));
}

#[test]
fn split_trailing_error_handles_ansi_prefixed_error_line() {
    // Real Nix output has a blank line between the trace and the
    // ANSI-colored `error:` paragraph.
    let text = "trace context\n\n\u{1b}[31;1merror:\u{1b}[0m boom";
    let (trace, tail) = split_trailing_error(text);
    assert_eq!(trace, Some("trace context"));
    assert!(tail.contains("boom"));
}

#[test]
fn split_trailing_error_handles_syntax_error_with_no_trace() {
    // Syntax errors arrive as a single `error: …` paragraph with source
    // context — no preceding frames. We should return an empty trace so
    // the caller renders the error inline without a help section.
    let text = "error: syntax error, unexpected '}', expecting ';'\n       at /path/to/devenv.nix:5:1:";
    let (trace, tail) = split_trailing_error(text);
    assert_eq!(trace, None);
    assert!(tail.starts_with("error: syntax error"));
    assert!(tail.contains("devenv.nix"));
}

#[test]
fn split_trailing_error_reports_blank_only_lead_as_no_trace() {
    // The `error:` paragraph is preceded only by blank lines: there is no
    // real trace, so the (whitespace-only) lead must trim to `None` rather
    // than leaking a `Some("")` that callers would render as an empty help.
    let (trace, tail) = split_trailing_error("\n\nerror: boom");
    assert_eq!(trace, None);
    assert_eq!(tail, "error: boom");
}

// ---------------------------------------------------------------------
// `format_eval_error` — end-to-end shaping of the diagnostic message.
// Covers a warning that shadows the real error, an actionable bit buried
// under the trace, and the degenerate shapes.

#[test]
fn format_eval_error_surfaces_trailing_error_and_demotes_trace() {
    // Missing-input shape: Nix `--show-trace` frames followed by an
    // assertion paragraph. The headline must be the assertion; the frames
    // must end up in `help` so the user isn't scrolling past 100 lines.
    let raw = "\
… from call site
  at /tmp/devenv.nix:1:1:
… while calling 'throw' builtin

error: Failed assertions:
- To use 'git-hooks', run the following command:

    $ devenv inputs add git-hooks github:cachix/git-hooks.nix --follows nixpkgs";
    let diag = format_eval_error(raw, "Failed to get shell attribute from devenv");
    assert!(
        diag.message
            .starts_with("Failed to get shell attribute from devenv: "),
        "headline should be prefixed with the context, got: {}",
        diag.message
    );
    assert!(
        diag.message.contains("devenv inputs add git-hooks"),
        "headline should carry the actionable suggestion, got: {}",
        diag.message
    );
    let help = diag.help.expect("trace should be demoted to help");
    assert!(help.starts_with("Nix evaluation trace:"));
    assert!(help.contains("… from call site"));
    assert!(
        !diag.message.contains("… from call site"),
        "frames should be in `help`, not the headline"
    );
}

#[test]
fn format_eval_error_handles_bare_syntax_error_without_help() {
    // A bare syntax error. The whole
    // message is a single `error: …` paragraph with source context — no
    // frames, no `help:` section.
    let raw =
        "error: syntax error, unexpected '}', expecting ';'\n       at /tmp/devenv.nix:5:1:";
    let diag = format_eval_error(raw, "Failed to get attribute 'config.cachix.enable'");
    assert!(diag.message.contains("syntax error"));
    assert!(diag.message.contains("devenv.nix"));
    assert!(
        diag.help.is_none(),
        "no preceding trace, so no help expected (got: {:?})",
        diag.help
    );
}

#[test]
fn format_eval_error_does_not_let_a_preceding_warning_shadow_the_error() {
    // A stale Nix
    // `warning: …` line arriving in the same diagnostic must not become
    // the headline. The trailing `error: …` line wins, the warning ends
    // up in the trace (the `help` field).
    let raw = "\
warning: Ignoring the client-specified setting 'system', because it is a restricted setting and you are not a trusted user

error: syntax error, unexpected '}', expecting ';'
       at /tmp/devenv.nix:5:1:";
    let diag = format_eval_error(raw, "Failed to get shell attribute from devenv");
    assert!(
        diag.message.contains("syntax error"),
        "headline should be the syntax error, got: {}",
        diag.message
    );
    assert!(
        !diag
            .message
            .contains("Ignoring the client-specified setting"),
        "the warning must not be the headline, got: {}",
        diag.message
    );
    let help = diag
        .help
        .expect("the preceding warning should land in help");
    assert!(help.contains("Ignoring the client-specified setting"));
}

#[test]
fn format_eval_error_gracefully_renders_input_with_no_error_line() {
    // Degraded shape — if Nix ever returns text that doesn't contain an
    // `error:` line (format change, unrelated diagnostic, etc.), we still
    // want to show the user *something* coherent rather than crash or
    // produce an empty headline. The whole text becomes the headline.
    let raw = "some unexpected text\nthat does not contain the keyword";
    let diag = format_eval_error(raw, "Failed to evaluate");
    assert!(diag.message.contains("some unexpected text"));
    assert!(diag.message.contains("does not contain the keyword"));
    assert!(diag.help.is_none());
}

#[test]
fn format_eval_error_strips_common_indentation_from_help() {
    // Nix's C-bindings logger wraps trace output in a uniform left margin
    // (7 spaces in practice). `dedent_lines` strips that so help is read
    // at the natural depth instead of being shoved off-screen.
    let raw = "\
       … from call site
         at /tmp/devenv.nix:1:1:

       error: boom";
    let diag = format_eval_error(raw, "ctx");
    let help = diag.help.expect("expected demoted trace in help");
    // After dedent the frame line begins at column 0, not column 7.
    assert!(
        help.lines().any(|l| l.starts_with("… from call site")),
        "frame line should be dedented to start at column 0, help was:\n{help}"
    );
}
