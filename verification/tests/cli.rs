use kallos::cli::args::{parse_line_width, Cli};
use kallos::cli::outcome::{Action, Severity};
use kallos::cli::process::{decide, no_write_action, plan, Decision, SkipReason};
use kallos::cli::run::{collect_targets, start, summarize, Probe, Start, Summary, Target};
use kallos::cli::select::select_files;
use kallos::cli::diff::render_diff;
use kallos::Style;

fn cli() -> Cli {
    Cli {
        paths: Vec::new(),
        line_width: 100,
        check: false,
        diff: false,
        safe: false,
        includes: Vec::new(),
        exclude: Vec::new(),
        extend_exclude: Vec::new(),
    }
}

#[test]
fn nonregular_explicit_path_reports_accurately() {
    let paths = vec!["/dev/null".to_string()];
    let probes = vec![Probe::Other];
    match start(&paths, &probes, false) {
        Start::Fatal { message, severity } => {
            assert_eq!(severity, Severity::Failed);
            assert!(
                message.contains("not a regular file") && !message.contains("does not exist"),
                "accurate message for a non-regular path: {message}"
            );
        }
        Start::Go(_) => panic!("a non-regular explicit path is fatal"),
    }
}

#[test]
fn missing_path_is_fatal_with_its_name() {
    let paths = vec!["nope.lp".to_string()];
    let err = collect_targets(&paths, &vec![Probe::Missing]).unwrap_err();
    assert_eq!(err, "path does not exist: `nope.lp`");
}

#[test]
fn no_paths_means_stdin() {
    let d = collect_targets(&Vec::new(), &Vec::new()).unwrap();
    assert_eq!(d.targets, vec![Target::Stdin]);
}

#[test]
fn dash_is_stdin_and_directories_expand_in_order() {
    let paths = vec!["-".to_string(), "dir".to_string(), "f.lp".to_string()];
    let probes = vec![
        Probe::Missing,
        Probe::Directory { files: vec!["dir/a.lp".to_string(), "dir/b.lp".to_string()], errors: vec!["e".to_string()] },
        Probe::RegularFile,
    ];
    let d = collect_targets(&paths, &probes).unwrap();
    assert_eq!(
        d.targets,
        vec![
            Target::Stdin,
            Target::File("dir/a.lp".to_string()),
            Target::File("dir/b.lp".to_string()),
            Target::File("f.lp".to_string()),
        ]
    );
    assert_eq!(d.errors, vec!["e".to_string()]);
}

#[test]
fn line_width_zero_is_a_usage_error() {
    assert!(parse_line_width("0").is_err());
}

#[test]
fn line_width_negative_is_a_usage_error() {
    assert!(parse_line_width("-3").is_err());
    assert_eq!(parse_line_width("x").unwrap_err(), "`x` is not a non-negative integer");
}

#[test]
fn line_width_positive_is_accepted() {
    assert_eq!(parse_line_width("80"), Ok(80));
}

#[test]
fn cli_style_threads_the_line_width() {
    let mut c = cli();
    c.line_width = 40;
    assert_eq!(c.style().line_width(), 40);
}

#[test]
fn stdin_formats_to_stdout() {
    let c = cli();
    match decide("a:-b.\n", &c, &c.style()) {
        Decision::Formatted { text, changed } => {
            assert_eq!(text, "a :- b.\n");
            assert!(changed);
        }
        other => panic!("expected a formatted decision, got {other:?}"),
    }
}

#[test]
fn a_syntax_error_is_skipped() {
    let c = cli();
    assert!(matches!(decide("a :- :- .\n", &c, &c.style()), Decision::Skip(SkipReason::SyntaxError)));
}

#[test]
fn a_byte_order_mark_is_preserved() {
    let c = cli();
    match decide("\u{feff}a:-b.\n", &c, &Style::default()) {
        Decision::Formatted { text, changed } => {
            assert_eq!(text, "\u{feff}a :- b.\n");
            assert!(changed);
        }
        other => panic!("expected a formatted decision, got {other:?}"),
    }
}

#[test]
fn safe_mode_passes_error_free_input() {
    let mut c = cli();
    c.safe = true;
    assert!(matches!(decide("a :- b, c.\n", &c, &c.style()), Decision::Formatted { .. }));
}

#[test]
fn no_write_actions() {
    assert_eq!(no_write_action(true, true), Action::WouldReformat);
    assert_eq!(no_write_action(true, false), Action::Diffed);
    assert_eq!(no_write_action(false, true), Action::Unchanged);
}

#[test]
fn stdin_skip_echoes_input_verbatim() {
    let p = plan(&Decision::Skip(SkipReason::SyntaxError), false, false, true);
    assert!(p.echo_input && p.report_skip);
    assert_eq!(p.action, Action::Skipped);
}

#[test]
fn check_mode_reports_would_reformat_for_a_changed_file() {
    let d = Decision::Formatted { text: "a.\n".to_string(), changed: true };
    let p = plan(&d, true, false, false);
    assert_eq!(p.action, Action::WouldReformat);
    assert!(p.report_would && !p.write_file);
}

#[test]
fn default_mode_writes_a_changed_file_back() {
    let d = Decision::Formatted { text: "a.\n".to_string(), changed: true };
    let p = plan(&d, false, false, false);
    assert_eq!(p.action, Action::Reformatted);
    assert!(p.write_file && p.report_reformatted);
}

#[test]
fn summary_counts_actions() {
    let s = summarize(false, true, &[Action::Reformatted, Action::Unchanged, Action::Diffed, Action::Skipped]).unwrap();
    assert_eq!((s.changed, s.unchanged, s.skipped), (1, 2, 1));
    assert!(summarize(false, false, &[Action::Unchanged]).is_none());
}

#[test]
fn a_run_records_one_action_per_target() {
    let paths = vec!["f.lp".to_string()];
    let probes = vec![Probe::RegularFile];
    let Start::Go(mut r) = start(&paths, &probes, true) else {
        panic!("a regular file starts a run");
    };
    assert_eq!(r.next_target(), Some(Target::File("f.lp".to_string())));
    r.record(Action::WouldReformat);
    assert_eq!(r.next_target(), None);
    let (summary, sev) = r.finish();
    assert_eq!(sev, Severity::Changed);
    let s = summary.unwrap();
    assert!(s.would);
    assert_eq!(s.changed, 1);
}

#[test]
fn missing_path_on_start_is_fatal_with_its_message() {
    let paths = vec!["nope.lp".to_string()];
    let probes = vec![Probe::Missing];
    match start(&paths, &probes, false) {
        Start::Fatal { message, severity } => {
            assert_eq!(message, "path does not exist: `nope.lp`");
            assert_eq!(severity, Severity::Failed);
        }
        Start::Go(_) => panic!("a missing path must end the run"),
    }
}

#[test]
fn summary_line_reads_as_counts() {
    let s = Summary { would: false, changed: 2, unchanged: 3, skipped: 1 };
    assert_eq!(s.line(), "2 reformatted, 3 unchanged, 1 skipped");
    let c = Summary { would: true, changed: 1, unchanged: 0, skipped: 0 };
    assert_eq!(c.line(), "1 would be reformatted, 0 unchanged, 0 skipped");
}

fn strings(v: &[&str]) -> Vec<String> {
    v.iter().map(|s| s.to_string()).collect()
}

#[test]
fn directory_search_selects_lp_files_in_path_order() {
    let walked = strings(&["d/b.lp", "d/a.lp", "d/notes.txt", "d/a/b.lp", "d/a-b.lp"]);
    let got = select_files("d", &cli(), &walked).unwrap();
    assert_eq!(got, strings(&["d/a/b.lp", "d/a-b.lp", "d/a.lp", "d/b.lp"]));
}

#[test]
fn directory_search_honors_include_and_exclude_globs() {
    let mut c = cli();
    c.includes = strings(&["*.txt", "*.lp"]);
    c.exclude = strings(&["b.lp"]);
    c.extend_exclude = strings(&["notes.txt"]);
    let walked = strings(&["d/b.lp", "d/a.lp", "d/notes.txt", "d/keep.txt"]);
    let got = select_files("d", &c, &walked).unwrap();
    assert_eq!(got, strings(&["d/a.lp", "d/keep.txt"]));
}

#[test]
fn a_malformed_glob_fails_the_search() {
    let mut c = cli();
    c.includes = strings(&["*.lp", "a[b"]);
    let e = select_files("d", &c, &Vec::new()).unwrap_err();
    assert!(e.starts_with("bad --include glob `a[b`: "), "{e}");
    let mut c = cli();
    c.exclude = strings(&["x[y"]);
    let e = select_files("d", &c, &strings(&["d/a.lp"])).unwrap_err();
    assert!(e.starts_with("bad --exclude glob `x[y`: "), "{e}");
}

#[test]
fn diff_of_a_changed_line() {
    let d = render_diff("a\n", "b\n", "x.lp");
    assert_eq!(d, "--- x.lp\n+++ x.lp\n@@ -1 +1 @@\n-a\n+b\n");
    assert_eq!(render_diff("same\n", "same\n", "x.lp"), "");
}
