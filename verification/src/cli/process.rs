//! Per-target decisions: the conservative `has_error` skip, the optional
//! `--safe` `verify` gate, `format`, and what the mode flags make of the result.
//! Reading and writing are the binary's; it hands the source in and carries the
//! plan out.

use super::args::Cli;
use super::outcome::Action;
use crate::cst::{has_error, source_cst, source_has_error};
use crate::emit::ends_in_one_newline;
use crate::equiv::{verify, Mismatch};
use crate::style::Style;
use crate::text::str_eq;
use vstd::prelude::*;
use vstd::string::StringExecFns;
use vstd::string::StringSliceAdditionalSpecFns;
use vstd::string::StrSliceExecFns;

verus! {

/// Why a target was not formatted.
#[derive(Debug)]
pub enum SkipReason {
    /// The source parses with `ERROR` / `MISSING` nodes.
    SyntaxError,
    /// `--safe`: the formatted result is not `≈` the input.
    Unsafe(Mismatch),
}

/// The format/skip decision for one source body.
#[derive(Debug)]
pub enum Decision {
    Formatted { text: String, changed: bool },
    Skip(SkipReason),
}

/// Text that begins with a UTF-8 byte-order mark.
pub open spec fn has_bom(s: Seq<char>) -> bool {
    s.len() > 0 && s[0] == '\u{feff}'
}

/// Encoding distributes over concatenation.
pub proof fn lemma_encode_concat(a: Seq<char>, b: Seq<char>)
    ensures
        vstd::utf8::encode_utf8(a + b) == vstd::utf8::encode_utf8(a) + vstd::utf8::encode_utf8(b),
    decreases a.len(),
{
    if a.len() == 0 {
        assert(a + b =~= b);
        assert(vstd::utf8::encode_utf8(a) =~= Seq::<u8>::empty());
        assert(Seq::<u8>::empty() + vstd::utf8::encode_utf8(b) =~= vstd::utf8::encode_utf8(b));
    } else {
        assert((a + b).drop_first() =~= a.drop_first() + b);
        assert((a + b)[0] == a[0]);
        lemma_encode_concat(a.drop_first(), b);
        let x = vstd::utf8::encode_scalar(a[0] as u32);
        assert(x + (vstd::utf8::encode_utf8(a.drop_first()) + vstd::utf8::encode_utf8(b)) =~= (x
            + vstd::utf8::encode_utf8(a.drop_first())) + vstd::utf8::encode_utf8(b));
    }
}

/// The text `decide` checks and formats: the source without a leading
/// byte-order mark.
pub open spec fn body_of(s: Seq<char>) -> Seq<char> {
    if has_bom(s) {
        s.drop_first()
    } else {
        s
    }
}

/// Decide what to do with `src`: a leading byte-order mark is split off, the body
/// is checked (`has_error`, then `--safe` `verify`) and formatted, and the mark is
/// re-attached to the output. The body is skipped as a syntax error exactly when
/// its parse carries errors; only `--safe` skips an error-free body.
pub fn decide(src: &str, cli: &Cli, style: &Style) -> (d: Decision)
    requires
        style.wf(),
        src.spec_bytes().len() <= u32::MAX,
    ensures
        match d {
            Decision::Formatted { text, changed } => {
                let f = if has_bom(src@) {
                    text@.drop_first()
                } else {
                    text@
                };
                &&& changed == (text@ != src@)
                &&& has_bom(src@) ==> has_bom(text@)
                &&& ends_in_one_newline(vstd::utf8::encode_utf8(f)) || f == body_of(src@)
                &&& source_cst(body_of(src@)) is None ==> f == body_of(src@)
            },
            Decision::Skip(SkipReason::Unsafe(_)) => cli.safe && source_cst(body_of(src@)) is Some,
            Decision::Skip(SkipReason::SyntaxError) => true,
        },
        (d matches Decision::Skip(SkipReason::SyntaxError)) <==> source_has_error(body_of(src@)),
{
    let n = src.unicode_len();
    let bom = n > 0 && src.get_char(0) == '\u{feff}';
    let body = if bom {
        src.substring_char(1, n)
    } else {
        src
    };
    assert(body@ == body_of(src@)) by {
        if bom {
            assert(body@ =~= src@.drop_first());
        }
    }
    proof {
        if bom {
            assert(src@ =~= seq![src@[0]] + body@);
            lemma_encode_concat(seq![src@[0]], body@);
        }
    }
    assert(body.spec_bytes().len() <= src.spec_bytes().len());
    if has_error(body) {
        return Decision::Skip(SkipReason::SyntaxError);
    }
    if cli.safe {
        match verify(body, style) {
            Ok(()) => {},
            Err(m) => {
                return Decision::Skip(SkipReason::Unsafe(m));
            },
        }
    }
    let formatted = crate::emit::format(body, style);
    let text = if bom {
        let t = String::from_str("\u{feff}").concat(formatted.as_str());
        proof {
            reveal_strlit("\u{feff}");
            assert(t@.drop_first() =~= formatted@);
        }
        t
    } else {
        formatted
    };
    let changed = !str_eq(text.as_str(), src);
    Decision::Formatted { text, changed }
}

/// The action for a no-write mode (`--check` / `--diff`).
pub fn no_write_action(changed: bool, check: bool) -> (a: Action)
    ensures
        a == (if !changed {
            Action::Unchanged
        } else if check {
            Action::WouldReformat
        } else {
            Action::Diffed
        }),
{
    if changed && check {
        Action::WouldReformat
    } else if changed {
        Action::Diffed
    } else {
        Action::Unchanged
    }
}

/// What processing one target must do after the decision.
#[derive(Clone, Copy, Debug, PartialEq, Eq, Structural)]
pub struct Plan {
    /// The target's action.
    pub action: Action,
    /// Stdin that was skipped: echo the input unchanged (an editor replacing its
    /// buffer from stdout cannot blank the file on a transient syntax error).
    pub echo_input: bool,
    /// Print a unified diff of the change.
    pub print_diff: bool,
    /// Write the formatted text to stdout.
    pub emit_text: bool,
    /// Write the formatted text back to the file.
    pub write_file: bool,
    /// Report `would reformat` on stderr.
    pub report_would: bool,
    /// Report `reformatted` on stderr.
    pub report_reformatted: bool,
    /// Report the skip on stderr.
    pub report_skip: bool,
}

/// The plan for a skipped target.
pub open spec fn skip_plan(stdin: bool) -> Plan {
    Plan {
        action: Action::Skipped,
        echo_input: stdin,
        print_diff: false,
        emit_text: false,
        write_file: false,
        report_would: false,
        report_reformatted: false,
        report_skip: true,
    }
}

/// The plan for a formatted target: the no-write modes compose (`--diff`
/// prints, `--check` governs the exit); otherwise stdin emits the text either
/// way and a changed file is written back.
pub open spec fn formatted_plan(changed: bool, check: bool, diff: bool, stdin: bool) -> Plan {
    if check || diff {
        Plan {
            action: if !changed {
                Action::Unchanged
            } else if check {
                Action::WouldReformat
            } else {
                Action::Diffed
            },
            echo_input: false,
            print_diff: changed && diff,
            emit_text: false,
            write_file: false,
            report_would: !stdin && changed && check,
            report_reformatted: false,
            report_skip: false,
        }
    } else {
        Plan {
            action: if changed {
                Action::Reformatted
            } else {
                Action::Unchanged
            },
            echo_input: false,
            print_diff: false,
            emit_text: stdin,
            write_file: !stdin && changed,
            report_would: false,
            report_reformatted: !stdin && changed,
            report_skip: false,
        }
    }
}

/// In default mode a formatted stdin always emits its text, changed or not (an
/// editor replacing its buffer from stdout never blanks it), and a formatted
/// file is never emitted; only a changed file is written back.
pub proof fn lemma_default_mode_emits_stdin(changed: bool, stdin: bool)
    ensures
        formatted_plan(changed, false, false, stdin).emit_text == stdin,
        formatted_plan(true, false, false, stdin).emit_text == formatted_plan(false, false, false, stdin).emit_text,
        formatted_plan(changed, false, false, stdin).write_file == (!stdin && changed),
        !formatted_plan(changed, false, false, stdin).echo_input,
{
}

/// The plan for a target given its decision, the mode flags, and whether it is
/// stdin.
pub fn plan(d: &Decision, check: bool, diff: bool, stdin: bool) -> (p: Plan)
    ensures
        p == (match d {
            Decision::Skip(_) => skip_plan(stdin),
            Decision::Formatted { changed, .. } => formatted_plan(*changed, check, diff, stdin),
        }),
        d is Formatted && !check && !diff ==> p.emit_text == stdin,
        d is Formatted && !check && !diff ==> p.write_file == (!stdin && d->changed),
        d is Formatted && (check || diff) ==> !p.emit_text && !p.write_file,
        d is Skip ==> !p.emit_text && !p.write_file && p.echo_input == stdin,
{
    match d {
        Decision::Skip(_) => Plan {
            action: Action::Skipped,
            echo_input: stdin,
            print_diff: false,
            emit_text: false,
            write_file: false,
            report_would: false,
            report_reformatted: false,
            report_skip: true,
        },
        Decision::Formatted { changed, .. } => {
            let changed = *changed;
            if check || diff {
                Plan {
                    action: no_write_action(changed, check),
                    echo_input: false,
                    print_diff: changed && diff,
                    emit_text: false,
                    write_file: false,
                    report_would: !stdin && changed && check,
                    report_reformatted: false,
                    report_skip: false,
                }
            } else {
                Plan {
                    action: if changed {
                        Action::Reformatted
                    } else {
                        Action::Unchanged
                    },
                    echo_input: false,
                    print_diff: false,
                    emit_text: stdin,
                    write_file: !stdin && changed,
                    report_would: false,
                    report_reformatted: !stdin && changed,
                    report_skip: false,
                }
            }
        },
    }
}

} // verus!
