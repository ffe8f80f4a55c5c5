use kallos::Style;

fn format_at_width(src: &str, width: usize) -> String {
    kallos::emit::format(src, &Style::default().with_line_width(width))
}

#[test]
fn output_ends_in_exactly_one_newline() {
    assert_eq!(format_at_width("a.\n", 80), "a.\n");
    assert_eq!(format_at_width("a.", 80), "a.\n");
    assert_eq!(format_at_width("a.\n\n\n", 80), "a.\n");
    assert_eq!(format_at_width("% lonely", 80), "% lonely\n");
    assert_eq!(format_at_width("", 80), "");
    assert_eq!(format_at_width("  \n\n ", 80), "");
}

#[test]
fn source_file_blank_normalization() {
    assert_eq!(format_at_width("a.\n\nb.\n", 80), "a.\n\nb.\n");
    assert_eq!(format_at_width("a.\n\n\n\nb.\n", 80), "a.\n\nb.\n");
    assert_eq!(format_at_width("a.\nb.\n", 80), "a.\nb.\n");
    assert_eq!(
        format_at_width("a.\n#program p.\nb.\n", 80),
        "a.\n\n#program p.\nb.\n"
    );
    assert_eq!(
        format_at_width("#program p.\na.\n", 80),
        "#program p.\na.\n"
    );
}

#[test]
fn source_file_blank_survives_a_reinjected_comment() {
    assert_eq!(format_at_width("a. % t\n\nb.\n", 80), "a. % t\n\nb.\n");
    assert_eq!(format_at_width("a.\n\n% c\nb.\n", 80), "a.\n\n% c\nb.\n");
}

#[test]
fn interior_block_blank_normalization() {
    let wide = "x :- #count{ aaaaaaaaaa : p; bbbbbbbbbb : q;\n\n cccccccccc : r } >= 1.\n";
    let out = format_at_width(wide, 32);
    assert_eq!(
        out.matches("\n\n").count(),
        1,
        "exactly one interior blank when exploded:\n{out}"
    );
    assert_eq!(
        format_at_width("x :- #count{ a;\n\n b } >= 1.\n", 80),
        "x :- #count{ a; b } >= 1.\n"
    );
    let twice = format_at_width(&out, 32);
    assert_eq!(out, twice, "interior blank is idempotent:\n{out}");
}

#[test]
fn interior_comment_after_separator_does_not_phantom_a_blank() {
    let no_blank = format_at_width(":- a,\n% c\n b.\n", 40);
    let blank = format_at_width(":- a,\n\n% c\n b.\n", 40);
    assert_eq!(no_blank, ":- a,\n   % c\n   b.\n");
    assert_eq!(blank, ":- a,\n\n   % c\n   b.\n");
    assert_ne!(no_blank, blank, "blank-vs-no-blank intent must survive");
    assert_eq!(
        format_at_width(":- aaaaaaaaaaaaaaaaaaaa\n\n, bbbbbbbbbbbbbbbbbbbb.\n", 20),
        ":- aaaaaaaaaaaaaaaaaaaa,\n\n   bbbbbbbbbbbbbbbbbbbb.\n"
    );
}

#[test]
fn lower_unhandled_kind_is_total() {
    let out = format_at_width("a :- b.\n", 80);
    assert!(out.contains("a :- b."));
}

#[test]
fn lower_preserves_an_error_span_verbatim() {
    let out = format_at_width("a :- :- .\n", 80);
    assert!(out.contains(":-"));
}

#[test]
fn lower_deeply_nested_input_does_not_overflow() {
    let n = 3000;
    let src = format!("p({}0{}).\n", "f(".repeat(n), ")".repeat(n));
    let out = format_at_width(&src, 80);
    assert!(out.starts_with("p("), "deep nest must descend and format");
    assert!(out.contains('0'), "the innermost term must be reached");
}

#[test]
fn pipeline_does_not_overflow_on_deeply_nested_input() {
    let n = 3000;
    let src = format!("p({}0{}).\n", "f(".repeat(n), ")".repeat(n));
    let out = format_at_width(&src, 80);
    assert!(out.starts_with("p("), "deep nest must descend and format");
    assert!(out.contains('0'), "the innermost term must be reached");
}

#[test]
fn descended_deep_operator_chain_does_not_overflow() {
    let n = 5000;
    let chain = vec!["1"; n].join("+");
    let out = format_at_width(&format!("p :- q({chain}).\n"), 80);
    assert!(
        out.contains("1+1"),
        "the deep operator chain must descend and stay tight"
    );
}

#[test]
fn theory_descends_deeply_without_overflow() {
    let n = 2000;
    let src = format!("&a {{ {}k0{} }} :- b.\n", "h(".repeat(n), ")".repeat(n));
    let out = format_at_width(&src, 80);
    assert!(
        out.starts_with("&a{"),
        "deep theory nest must descend and format"
    );
    assert!(
        out.contains("k0"),
        "the innermost theory term must be reached"
    );
}

#[test]
fn readme_first_example() {
    let src = "%reachability\nedge(1,2).edge(2,3). edge(3,4).\nreach(X,Y):-edge(X,Y).\nreach(X,Z):-reach(X,Y),edge(Y,Z). %transitive\n#show reach/2.\n";
    let want = "%reachability\nedge(1, 2).\nedge(2, 3).\nedge(3, 4).\nreach(X, Y) :- edge(X, Y).\nreach(X, Z) :- reach(X, Y), edge(Y, Z). %transitive\n#show reach/2.\n";
    assert_eq!(format_at_width(src, 100), want);
}
