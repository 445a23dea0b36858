# nix_eval_error

Shapes the error text that Nix renders into a diagnostic: the actionable `error:` paragraph becomes
the message, and the evaluation trace before it becomes the help. All of `src/` is verified with
Verus.

| module | what it holds |
| --- | --- |
| `text` | texts as characters and as UTF-8 bytes, and how to cut and search them |
| `whitespace` | white space, and trimming it |
| `lines` | cutting a text into lines |
| `ansi` | `strip_leading_ansi`: skipping leading colour codes |
| `paragraph` | `split_trailing_error`, `split_at`: the trace and the error block of a text |
| `dedent` | `dedent_lines`: removing the left margin |
| `numbering` | lines by number: dedenting keeps the line of the split |
| `diagnostic` | `format_eval_error`: the diagnostic, a `miette::MietteDiagnostic` |

Contracts speak of a text as its sequence of characters. Proof functions whose names start with
`law_` state what holds of the library as a whole.

Two calls are trusted rather than proved, both in `diagnostic`: `miette::MietteDiagnostic::new` and
`miette::MietteDiagnostic::with_help`.
