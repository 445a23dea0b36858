//! Rendering a Nix error as a `miette` diagnostic.

use crate::dedent::{dedent_lines, dedented};
use crate::numbering::law_dedent_keeps_split_line;
use crate::paragraph::{
    error_line, error_paragraph, law_chained_errors, law_first_error, law_lead_is_trace,
    law_no_paragraph, law_parts_cover_text, law_split_point, law_trace_is_visible, line_at,
    split_trailing_error, trace_or_empty, trailing_error,
};
use crate::whitespace::{blank, trimmed_end};
use vstd::prelude::*;

verus! {

/// `miette::MietteDiagnostic`, a diagnostic made at run time. Its fields are public; contracts
/// speak of them through [`diagnostic_fields`].
#[verifier::external_type_specification]
#[verifier::external_body]
pub struct ExMietteDiagnostic(miette::MietteDiagnostic);

/// What the fields of a `miette::MietteDiagnostic` hold.
pub struct DiagnosticFields {
    /// The field `message`.
    pub message: Seq<char>,
    /// The field `help`.
    pub help: Option<Seq<char>>,
    /// Whether any of the fields `code`, `severity`, `url` and `labels` is `Some`.
    pub annotated: bool,
}

/// The contents of the fields of `diagnostic`.
pub uninterp spec fn diagnostic_fields(diagnostic: miette::MietteDiagnostic) -> DiagnosticFields;

/// Calls `miette::MietteDiagnostic::new`, which stores `message` in the field `message` and sets
/// every other field to `None`.
#[verifier::external_body]
fn new_diagnostic(message: String) -> (diagnostic: miette::MietteDiagnostic)
    ensures
        diagnostic_fields(diagnostic) == (DiagnosticFields {
            message: message@,
            help: None,
            annotated: false,
        }),
{
    miette::MietteDiagnostic::new(message)
}

/// Calls `miette::MietteDiagnostic::with_help`, which sets the field `help` to `Some(help)` and
/// keeps every other field.
#[verifier::external_body]
fn with_help(diagnostic: miette::MietteDiagnostic, help: String) -> (helpful:
    miette::MietteDiagnostic)
    ensures
        diagnostic_fields(helpful) == (DiagnosticFields {
            help: Some(help@),
            ..diagnostic_fields(diagnostic)
        }),
{
    diagnostic.with_help(help)
}

/// The message for the error text `raw`: what was being done, then the error block.
pub open spec fn headline(raw: Seq<char>, context: Seq<char>) -> Seq<char> {
    context + ": "@ + trailing_error(dedented(raw)).1
}

/// The help for the error text `raw`: its trace, where it has one.
pub open spec fn trace_help(raw: Seq<char>) -> Option<Seq<char>> {
    match trailing_error(dedented(raw)).0 {
        Some(trace) => Some("Nix evaluation trace:\n\n"@ + trace),
        None => None,
    }
}

/// The message opens with what was being done.
pub proof fn law_headline_opens_with_context(raw: Seq<char>, context: Seq<char>)
    ensures
        (context + ": "@).is_prefix_of(headline(raw, context)),
{
    let opening = context + ": "@;
    assert(opening =~= headline(raw, context).subrange(0, opening.len() as int));
}

/// Without an `error:` paragraph all of the text, dedented, is the message, and there is no help.
pub proof fn law_unsplit_text_is_headline(raw: Seq<char>, context: Seq<char>)
    requires
        forall|p: int| !error_paragraph(raw, p),
    ensures
        headline(raw, context) == context + ": "@ + dedented(raw),
        trace_help(raw) is None,
{
    law_split_point(raw);
    law_dedent_keeps_split_line(raw);
}

/// Frames or warnings, then a blank line, then a block that opens with `error:`: the block is the
/// message and what precedes it is the help, so that nothing shadows the error.
pub proof fn law_lead_goes_to_help(
    raw: Seq<char>,
    context: Seq<char>,
    lead: Seq<char>,
    block: Seq<char>,
)
    requires
        dedented(raw) == lead + seq!['\n', '\n'] + block,
        forall|p: int| !error_paragraph(lead, p),
        error_line(line_at(block, 0)),
    ensures
        headline(raw, context) == context + ": "@ + trimmed_end(block),
        trace_help(raw) == if blank(lead) {
            None
        } else {
            Some("Nix evaluation trace:\n\n"@ + trimmed_end(lead))
        },
{
    law_lead_is_trace(lead, block);
}

/// Where the dedented text opens with `error:`, the last of its `error:` paragraphs, without the
/// white space at its end, is in the message. All that precedes it, the opening `error:` and the
/// frames behind it among that, is in the help. With no second paragraph there is no help.
pub proof fn law_last_error_is_headline(raw: Seq<char>, context: Seq<char>, p: int)
    requires
        error_paragraph(dedented(raw), 0),
        error_paragraph(dedented(raw), p),
        forall|q: int| q > p ==> !error_paragraph(dedented(raw), q),
    ensures
        headline(raw, context) == context + seq![':', ' '] + trimmed_end(dedented(raw).skip(p)),
        trace_help(raw) == if p == 0 {
            None
        } else {
            Some("Nix evaluation trace:\n\n"@ + trimmed_end(dedented(raw).take(p)))
        },
{
    law_chained_errors(dedented(raw), p);
    reveal_strlit(": ");
    assert(": "@ =~= seq![':', ' ']);
}

/// Where the dedented text does not open with `error:`, its first `error:` paragraph and all that
/// follows it, without the white space at the end, is in the message. What precedes it, unless it
/// is blank, is in the help.
pub proof fn law_first_error_is_headline(raw: Seq<char>, context: Seq<char>, p: int)
    requires
        p > 0,
        error_paragraph(dedented(raw), p),
        forall|q: int| q < p ==> !error_paragraph(dedented(raw), q),
    ensures
        headline(raw, context) == context + seq![':', ' '] + trimmed_end(dedented(raw).skip(p)),
        trace_help(raw) == if blank(dedented(raw).take(p)) {
            None
        } else {
            Some("Nix evaluation trace:\n\n"@ + trimmed_end(dedented(raw).take(p)))
        },
{
    law_first_error(dedented(raw), p);
    reveal_strlit(": ");
    assert(": "@ =~= seq![':', ' ']);
}

/// Where the dedented text has no `error:` paragraph, all of it is in the message, as it stands, and
/// there is no help.
pub proof fn law_text_without_error_is_headline(raw: Seq<char>, context: Seq<char>)
    requires
        forall|p: int| !error_paragraph(dedented(raw), p),
    ensures
        headline(raw, context) == context + seq![':', ' '] + dedented(raw),
        trace_help(raw) is None,
{
    law_no_paragraph(dedented(raw));
    reveal_strlit(": ");
    assert(": "@ =~= seq![':', ' ']);
}

/// The dedented text `raw` is made of `trace`, a blank `gap`, `block` and a blank `end`, of which
/// `block` is in the message and `trace`, unless it is empty, in the help.
pub open spec fn shown(
    raw: Seq<char>,
    context: Seq<char>,
    trace: Seq<char>,
    gap: Seq<char>,
    block: Seq<char>,
    end: Seq<char>,
) -> bool {
    &&& dedented(raw) == trace + gap + block + end
    &&& blank(gap)
    &&& blank(end)
    &&& headline(raw, context) == context + ": "@ + block
    &&& trace_help(raw) == if trace.len() == 0 {
        None
    } else {
        Some("Nix evaluation trace:\n\n"@ + trace)
    }
}

/// A diagnostic shows all of the dedented text but white space, each part once: in the message or
/// in the help.
pub proof fn law_everything_is_shown(raw: Seq<char>, context: Seq<char>)
    ensures
        exists|trace: Seq<char>, gap: Seq<char>, block: Seq<char>, end: Seq<char>|
            shown(raw, context, trace, gap, block, end),
{
    let text = dedented(raw);
    law_parts_cover_text(text);
    law_trace_is_visible(text);
    let (gap, end) = choose|gap: Seq<char>, end: Seq<char>| #[trigger]
        blank(gap) && #[trigger] blank(end) && text == trace_or_empty(trailing_error(text)) + gap
            + trailing_error(text).1 + end;
    assert(shown(
        raw,
        context,
        trace_or_empty(trailing_error(text)),
        gap,
        trailing_error(text).1,
        end,
    ));
}

/// The texts of a diagnostic.
#[derive(Debug)]
pub struct EvalErrorText {
    /// The message: what was being done, and the error block.
    pub message: String,
    /// The trace under a heading, where there is one.
    pub help: Option<String>,
}

impl EvalErrorText {
    /// The help as characters.
    pub open spec fn help_view(&self) -> Option<Seq<char>> {
        match self.help {
            Some(help) => Some(help@),
            None => None,
        }
    }
}

/// The texts of the diagnostic for the error text `raw`, which arose while doing `context`.
pub fn eval_error_text(raw: &str, context: &str) -> (texts: EvalErrorText)
    ensures
        texts.message@ == headline(raw@, context@),
        texts.help_view() == trace_help(raw@),
        texts.help matches Some(help) ==> trace_help(raw@) == Some(help@),
        texts.help is None ==> trace_help(raw@) is None,
{
    let flat = dedent_lines(raw);
    let (trace, tail) = split_trailing_error(flat.as_str());
    let mut message = context.to_string();
    message.append(": ");
    message.append(tail);
    let help = match trace {
        Some(trace) => {
            let mut help = "Nix evaluation trace:\n\n".to_string();
            help.append(trace);
            Some(help)
        },
        None => None,
    };
    EvalErrorText { message, help }
}

/// Shapes the raw error text that Nix returns into a diagnostic. Callers wrap the result in a
/// `miette::Report`.
///
/// - The indentation of a `--show-trace` trace is removed.
/// - If there is a trailing `error: ...` paragraph, it becomes the headline, and the frames before
///   it become the help.
/// - Otherwise all of the text becomes the headline, so that output of an unexpected shape (a stray
///   warning, a future format) is still shown.
pub fn format_eval_error(raw: &str, context: &str) -> (diagnostic: miette::MietteDiagnostic)
    ensures
        diagnostic_fields(diagnostic) == (DiagnosticFields {
            message: headline(raw@, context@),
            help: trace_help(raw@),
            annotated: false,
        }),
{
    let texts = eval_error_text(raw, context);
    let diagnostic = new_diagnostic(texts.message);
    match texts.help {
        Some(help) => with_help(diagnostic, help),
        None => diagnostic,
    }
}

} // verus!
