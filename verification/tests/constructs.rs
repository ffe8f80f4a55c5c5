use kallos::Style;

/// The emitter pipeline at `width` (parse, attach, lower, render), without the
/// final-newline normalization: a single statement shows no trailing newline.
fn fmt(src: &str, width: usize) -> String {
    let out = kallos::emit::format(src, &Style::default().with_line_width(width));
    match out.strip_suffix('\n') {
        Some(s) => s.to_string(),
        None => out,
    }
}

#[test]
fn headed_rule_explodes_neck_trails_body_drops_indent_4() {
    // gallery [width 20]: the neck trails the head; the body drops to a
    // relative indent-4 block, one literal per line.
    let out = fmt("reachable(X, Y) :- edge(X, Z), reachable(Z, Y).\n", 20);
    assert_eq!(
        out,
        "reachable(X, Y) :-\n    edge(X, Z),\n    reachable(Z, Y)."
    );
}

#[test]
fn headed_rule_stays_flat_when_it_fits() {
    let out = fmt("reachable(X, Y) :- edge(X, Z), reachable(Z, Y).\n", 100);
    assert_eq!(out, "reachable(X, Y) :- edge(X, Z), reachable(Z, Y).");
}

#[test]
fn headed_rule_body_stays_flat_under_broken_neck_recursive_minimal() {
    // Recursive-minimal: the whole rule overflows so the neck breaks, but
    // the body fits at indent 4, so the body stays FLAT — not one-per-line.
    // This is the behavior the body's own inner group exists to produce.
    let out = fmt("reachable(X, Y) :- e(X, Y), e(Y, X).\n", 25);
    assert_eq!(out, "reachable(X, Y) :-\n    e(X, Y), e(Y, X).");
}

#[test]
fn integrity_constraint_neck_leads_first_literal_rides_hang_3() {
    // gallery [width 20]: the neck leads, the first literal rides it, the
    // rest hang at the neck width (3).
    let out = fmt(":- assign(T, S1), assign(T, S2), S1 < S2.\n", 20);
    assert_eq!(out, ":- assign(T, S1),\n   assign(T, S2),\n   S1 < S2.");
}

#[test]
fn integrity_constraint_stays_flat_when_it_fits() {
    let out = fmt(":- assign(T, S1), assign(T, S2), S1 < S2.\n", 100);
    assert_eq!(out, ":- assign(T, S1), assign(T, S2), S1 < S2.");
}

#[test]
fn two_statements_are_joined_by_a_single_newline() {
    // The minimal source_file rule: statements on consecutive lines (the
    // blank-line rule and the final newline are handled separately).
    let out = fmt("a :- b.\nc :- d.\n", 100);
    assert_eq!(out, "a :- b.\nc :- d.");
}

#[test]
fn interior_line_comment_is_reinjected_and_explodes_the_body() {
    // An interior line comment is re-injected at its anchor (trailing the
    // `,`, one-space gap) and forces the body to explode (a `%` comment runs to
    // end-of-line, so the next literal drops to its own line at the body indent).
    // This is rustfmt's behavior; it supersedes the old verbatim degrade.
    let out = fmt("a :- b, % note\n  c.\n", 100);
    assert_eq!(out, "a :-\n    b, % note\n    c.");
}

#[test]
fn leading_comment_sits_on_its_own_line_above_the_statement() {
    assert_eq!(fmt("% header\na :- b.\n", 100), "% header\na :- b.");
}

#[test]
fn a_run_of_leading_comments_shares_the_anchor_in_order() {
    assert_eq!(fmt("% one\n% two\na.\n", 100), "% one\n% two\na.");
}

#[test]
fn trailing_comment_rides_its_statement_with_a_one_space_gap() {
    // rustfmt POLS: ONE space before a trailing comment; the comment's forced break
    // is dropped at end-of-file (the lazy renderer), so no trailing newline here.
    assert_eq!(fmt("a :- b. % note\n", 100), "a :- b. % note");
}

#[test]
fn trailing_comment_whitespace_is_stripped() {
    assert_eq!(fmt("a. % note   \n", 100), "a. % note");
}

#[test]
fn a_multi_line_block_comment_is_re_injected_byte_exact() {
    // A leading multi-line block comment is a verbatim span: its internal
    // newline and indentation pass through unchanged (no re-indent), then the
    // statement on its own line.
    assert_eq!(fmt("%* a\n  b *%\np.\n", 100), "%* a\n  b *%\np.");
}

#[test]
fn single_line_block_between_tokens_forces_the_break_v0() {
    // v0: a single-line block comment between code tokens forces the break
    // (the in-place `Inline` role is reserved). It trails the `:-` neck,
    // and the body drops below it.
    let out = fmt("a :- %* note *% b.\n", 100);
    assert!(out.contains("%* note *%"), "comment preserved: {out:?}");
    assert!(out.contains('\n'), "the comment forces a break: {out:?}");
}

#[test]
fn an_error_child_still_degrades_and_subsumes_its_comment() {
    // A node with an ERROR / MISSING child still degrades to its byte-exact verbatim
    // span (not collapsed). Re-injection does not run for a degraded node; an
    // interior comment is preserved inside the verbatim span, never double-emitted.
    let out = fmt("a :- . % c\n", 100);
    assert!(out.contains(":-"), "neck preserved: {out:?}");
    assert!(out.contains("% c"), "comment preserved: {out:?}");
}

#[test]
fn dangling_comment_lands_before_the_closer_at_block_indent() {
    // A comment after the last element, before the bracket closer, is
    // re-injected on its own line at the block indent; the closer dedents below it.
    // The dangling comment forces the BRACKET to explode, but the argument list `a,
    // b` is its own inner group and stays flat since it fits (recursive-minimal).
    let out = fmt("p(a, b\n% after\n).\n", 100);
    assert_eq!(out, "p(\n    a, b\n    % after\n).");
}

#[test]
fn comment_only_bracket_body_has_no_doubled_blank_line() {
    // The bracket's open-break and the lone dangling comment's leading hardline
    // coalesce (the lazy renderer), so there is no blank line after `(`.
    let out = fmt("p(\n% only\n).\n", 100);
    assert_eq!(out, "p(\n    % only\n).");
}

#[test]
fn dangling_comment_before_a_statement_dot_keeps_the_dot() {
    // A comment on its own line between the body and the `.` dangles on the rule;
    // re-injecting it must not let the line comment swallow the `.` (mode A's
    // trailing hardline drops the dot to its own line).
    let out = fmt("a :- b\n% c\n.\n", 100);
    assert!(out.contains("% c"), "comment preserved: {out:?}");
    assert!(out.trim_end().ends_with('.'), "dot preserved: {out:?}");
}

#[test]
fn comment_reinjection_is_depth_safe() {
    // Re-injection rides the same iterative work-list; a deep nest carrying a leading
    // comment must still return.
    let n = 2000;
    let src = format!("% c\np({}0{}).\n", "f(".repeat(n), ")".repeat(n));
    let out = fmt(&src, 80);
    assert!(
        out.starts_with("% c\np("),
        "deep nest with a comment must format: {:?}",
        &out[..out.len().min(12)]
    );
}

#[test]
fn comment_layout_is_idempotent() {
    // format(format(x)) == format(x) for comment-bearing input: re-formatting
    // the output is a fixed point.
    let once = fmt("a :- b, % note\nc. % tail\n", 20);
    let twice_src = format!("{once}\n");
    assert_eq!(
        fmt(&twice_src, 20),
        once,
        "comment layout must be idempotent"
    );
}

#[test]
fn error_bearing_statement_degrades_to_verbatim_not_collapse() {
    // A handled construct with a direct ERROR / MISSING child degrades to its
    // verbatim span rather than collapse spacing (`a :- .` must NOT become
    // `a:-.`). Production never formats error input (the CLI `has_error` skip),
    // but the emitter's totality backstop must still be byte-faithful here.
    let out = fmt("a :- .\n", 100);
    assert_eq!(out, "a :- .");
}

#[test]
fn disjunctive_head_explodes_one_disjunct_per_line() {
    // gallery [width 22]: a disjunctive head is a separated sequence —
    // disjuncts at the base column with the `;` preserved as authored, then the
    // body drops to indent 4.
    let out = fmt("color(N, r); color(N, g); color(N, b) :- node(N).\n", 22);
    assert_eq!(
        out,
        "color(N, r);\ncolor(N, g);\ncolor(N, b) :-\n    node(N)."
    );
}

#[test]
fn disjunctive_head_stays_flat_when_it_fits() {
    let out = fmt("a; b; c :- d.\n", 100);
    assert_eq!(out, "a; b; c :- d.");
}

#[test]
fn disjunction_pipe_separator_is_spaced_both_sides() {
    // The `|` disjunction separator is spaced on BOTH sides (`a | b`),
    // an alternation bar — unlike the trailing `;` / `,` list separators
    // (`a; b`), which hug the left element.
    let out = fmt("a | b | c :- d.\n", 100);
    assert_eq!(out, "a | b | c :- d.");
}

#[test]
fn disjunction_pipe_separator_trails_when_broken() {
    // General rule: the separator trails (rides the left disjunct), so a
    // broken `|`-disjunction keeps the bar at each line's end with its space.
    let out = fmt("aaa | bbb | ccc :- ddd.\n", 12);
    assert_eq!(out, "aaa |\nbbb |\nccc :-\n    ddd.");
}

// ----- bracketed aggregates (set_aggregate / choice) -----

#[test]
fn bounded_choice_explodes_body_drops_bounds_flank() {
    // gallery (bounded choice): the numeric bounds flank the brace spaced
    // (`1 {`, `} 1`); the brace block explodes one element per line with the
    // `;` trailing; the closer dedents and the upper bound rides it; the neck
    // trails `} 1`, and the head explosion drops the body to indent 4. Width 30
    // (not the gallery's illustrative 24, where the elements are 25-26 cols and
    // overflow): now that elements lower structurally, 30 keeps them flat so this
    // test isolates the choice-level shape; element recursive-minimal explosion is
    // covered by `bounded_choice_recursive_minimal_matches_spec_gallery_case_5`.
    let out = fmt(
        "1 { assign(T,S) : slot(S); waive(T) : optional(T) } 1 :- task(T).\n",
        30,
    );
    assert_eq!(
        out,
        "1 {\n    assign(T,S) : slot(S);\n    waive(T) : optional(T)\n} 1 :-\n    task(T)."
    );
}

#[test]
fn bounded_choice_stays_flat_when_it_fits() {
    // Flat: bounds flank spaced, spaces inside the braces, `;` separators spaced.
    let out = fmt(
        "1 { assign(T,S) : slot(S); waive(T) : optional(T) } 1 :- task(T).\n",
        100,
    );
    assert_eq!(
        out,
        "1 { assign(T,S) : slot(S); waive(T) : optional(T) } 1 :- task(T)."
    );
}

#[test]
fn choice_normalizes_brace_spacing_and_element_interior() {
    // The aggregate's own spacing is normalized (`1 {`, spaces inside, `} 1`), AND
    // — since `set_aggregate_element` is lowered structurally — the element interior
    // is normalized too: the conditional `:` becomes spaced (`assign(T,S) : slot(S)`),
    // while the function's depth-≥2 argument comma stays tight (`assign(T,S)`).
    // (Previously the element was a verbatim leaf preserving the authored `:slot`.)
    let out = fmt("1{assign(T,S):slot(S)}1 :- task(T).\n", 100);
    assert_eq!(out, "1 { assign(T,S) : slot(S) } 1 :- task(T).");
}

#[test]
fn boundless_choice_brace_leads_its_own_line() {
    // Invariant: a boundless `{` with no bound/name is a heavy opener,
    // so it may lead its own line when the head explodes. Width 30 (not the
    // gallery's illustrative 24, where the elements overflow): keeps the elements
    // flat so this test isolates the boundless-opener shape (see the sibling
    // bounded-choice test's note).
    let out = fmt(
        "{ assign(T,S) : slot(S); waive(T) : optional(T) } :- task(T).\n",
        30,
    );
    assert_eq!(
        out,
        "{\n    assign(T,S) : slot(S);\n    waive(T) : optional(T)\n} :-\n    task(T)."
    );
}

#[test]
fn boundless_choice_stays_flat_when_it_fits() {
    let out = fmt(
        "{ assign(T,S) : slot(S); waive(T) : optional(T) } :- task(T).\n",
        100,
    );
    assert_eq!(
        out,
        "{ assign(T,S) : slot(S); waive(T) : optional(T) } :- task(T)."
    );
}

#[test]
fn boundless_choice_fact_explodes_dot_glued_to_closer() {
    // A choice fact is a headless rule (`{ … }.`): the dot rides the dedented
    // closer (`}.`, no space), the elements one per line.
    let out = fmt("{ a; b }.\n", 6);
    assert_eq!(out, "{\n    a;\n    b\n}.");
}

#[test]
fn boundless_choice_fact_stays_flat_when_it_fits() {
    let out = fmt("{ a; b }.\n", 100);
    assert_eq!(out, "{ a; b }.");
}

#[test]
fn empty_choice_has_no_interior_padding() {
    // An empty brace pair renders `{}` — never `{  }` (a double pad from the
    // open/close break collapsing onto each other) — and stays total.
    let out = fmt("{} :- a.\n", 100);
    assert_eq!(out, "{} :- a.");
}

// ----- optimization statements (minimize / maximize) -----

#[test]
fn minimize_explodes_keyword_abuts_brace_dot_glued() {
    // gallery (optimize): the `#minimize` keyword abuts its element brace
    // (`#minimize{`), the weight tuples explode one per line, and the statement dot
    // rides the dedented closer (`}.`). Width 26 (not the gallery's illustrative 24,
    // where `P@2, T : penalty(T,P)` is 25 cols and overflows): now that optimize
    // elements lower structurally, 26 keeps both flat so this test isolates the
    // keyword-abut / dot-glue; element explosion is covered by
    // `optimize_element_weight_prefix_is_spaced_and_condition_hangs`.
    let out = fmt(
        "#minimize { C@1, T : cost(T,C); P@2, T : penalty(T,P) }.\n",
        26,
    );
    assert_eq!(
        out,
        "#minimize{\n    C@1, T : cost(T,C);\n    P@2, T : penalty(T,P)\n}."
    );
}

#[test]
fn minimize_stays_flat_when_it_fits() {
    let out = fmt(
        "#minimize { C@1, T : cost(T,C); P@2, T : penalty(T,P) }.\n",
        100,
    );
    assert_eq!(
        out,
        "#minimize{ C@1, T : cost(T,C); P@2, T : penalty(T,P) }."
    );
}

#[test]
fn maximize_explodes_like_minimize() {
    let out = fmt("#maximize { C@1 : cost(C); P@2 : penalty(P) }.\n", 20);
    assert_eq!(
        out,
        "#maximize{\n    C@1 : cost(C);\n    P@2 : penalty(P)\n}."
    );
}

// ----- head aggregate (#count{…} >= n) -----

#[test]
fn head_aggregate_function_abuts_brace_upper_rides_closer() {
    // The aggregate function abuts its brace (`#count{`); the relational upper
    // bound rides the dedented closer spaced (`} >= 1`); the neck trails it and
    // the head explosion drops the body.
    let out = fmt("#count { X : p(X) } >= 1 :- q.\n", 12);
    assert_eq!(out, "#count{\n    X : p(X)\n} >= 1 :-\n    q.");
}

#[test]
fn head_aggregate_stays_flat_when_it_fits() {
    let out = fmt("#count { X : p(X) } >= 1 :- q.\n", 100);
    assert_eq!(out, "#count{ X : p(X) } >= 1 :- q.");
}

#[test]
fn head_aggregate_lower_bound_is_spaced_from_function() {
    // A relational lower bound leads the function, spaced (`1 <= #count{`).
    let out = fmt("1 <= #count { X : p(X) } :- q.\n", 14);
    assert_eq!(out, "1 <= #count{\n    X : p(X)\n} :-\n    q.");
}

#[test]
fn aggregate_guard_relation_is_normalized_spaced() {
    // An aggregate bound's `relation` is spaced both sides like a comparison
    // and NORMALIZED — independent of the input's spacing (the formatter does not
    // echo source whitespace). Regression guard: `lower` / `upper` had no lowering
    // and fell through to the verbatim default, so `{a}=1` kept its tight `=1`.
    assert_eq!(fmt("{a}=1.\n", 100), "{ a } = 1.");
    assert_eq!(fmt("{ a }  =  1 .\n", 100), "{ a } = 1.");
    assert_eq!(fmt(":- #count{ x } >=2.\n", 100), ":- #count{ x } >= 2.");
    // both a lower and an upper bound on the one aggregate:
    assert_eq!(fmt("1<{a}<3.\n", 100), "1 < { a } < 3.");
}

// ----- theory atom (&name{…} op term) -----

#[test]
fn theory_atom_name_abuts_brace_upper_rides_closer() {
    // `&name` abuts its element brace (`&diff{`); the theory upper bound rides
    // the dedented closer spaced (`} <= 3`); the neck trails and the body drops.
    let out = fmt("&diff { x - y } <= 3 :- a.\n", 10);
    assert_eq!(out, "&diff{\n    x - y\n} <= 3 :-\n    a.");
}

#[test]
fn theory_atom_stays_flat_when_it_fits() {
    let out = fmt("&diff { x - y } <= 3 :- a.\n", 100);
    assert_eq!(out, "&diff{ x - y } <= 3 :- a.");
}

#[test]
fn theory_atom_arguments_abut_the_name() {
    // A theory atom's `(args)` abut the name (`&p(1){`), like a function's.
    let out = fmt("&p(1) { q } :- a.\n", 8);
    assert_eq!(out, "&p(1){\n    q\n} :-\n    a.");
}

// ----- body literals, signs, comparisons -----

#[test]
fn comparison_relations_are_spaced() {
    // A body comparison's `relation` is spaced both sides; the terms are
    // verbatim, so `X<Y` normalizes to `X < Y`.
    let out = fmt("a :- X<Y.\n", 100);
    assert_eq!(out, "a :- X < Y.");
}

#[test]
fn chained_comparison_relations_are_spaced() {
    let out = fmt("a :- X<Y<Z.\n", 100);
    assert_eq!(out, "a :- X < Y < Z.");
}

#[test]
fn default_negation_is_spaced_from_its_atom() {
    // `not` is always spaced from the following atom (lest `not p` fuse to
    // `notp`); the extra authored space is normalized to one.
    let out = fmt("a :- not  b.\n", 100);
    assert_eq!(out, "a :- not b.");
}

#[test]
fn double_default_negation_is_spaced() {
    let out = fmt("a :- not not b.\n", 100);
    assert_eq!(out, "a :- not not b.");
}

#[test]
fn sign_less_body_literal_is_unchanged() {
    // Regression: descending into body_literal must not alter a sign-less
    // verbatim atom (the body_literal span equals its atom span).
    let out = fmt("reachable(X, Y) :- edge(X, Z), reachable(Z, Y).\n", 100);
    assert_eq!(out, "reachable(X, Y) :- edge(X, Z), reachable(Z, Y).");
}

#[test]
fn body_aggregate_in_constraint_composes_hang_increments() {
    // gallery (constraint nesting a body aggregate): the headless neck leads
    // with `task(T)` riding it, the body hangs at the neck width (3), then the
    // aggregate's elements hang at 3+4=7; the closer dedents to the aggregate's base
    // column (3) with `} >= 2` glued. Increments compose. Width 24 (not the gallery's
    // illustrative 16, where `S : assign(T,S)` is 22 cols and overflows): now that the
    // element lowers structurally, 24 keeps it flat so this test isolates the
    // hang-composition; the element's own recursive-minimal explosion is covered by
    // `body_aggregate_element_condition_explodes_under_recursive_minimal`.
    let out = fmt(":- task(T), #count { S : assign(T,S) } >= 2.\n", 24);
    assert_eq!(
        out,
        ":- task(T),\n   #count{\n       S : assign(T,S)\n   } >= 2."
    );
}

#[test]
fn body_aggregate_stays_flat_when_it_fits() {
    let out = fmt(":- task(T), #count { S : assign(T,S) } >= 2.\n", 100);
    assert_eq!(out, ":- task(T), #count{ S : assign(T,S) } >= 2.");
}

#[test]
fn empty_constraint_body_is_total() {
    // `:- .` parses as a constraint with NO body node; the leading neck renders
    // it without crashing (an empty separated sequence is nil, the hang nests
    // nothing) and round-trips byte-faithfully.
    assert_eq!(fmt(":- .\n", 100), ":- .");
    // `:-.` (no space) normalizes to `:- .` — the neck's invariant trailing
    // space is inserted; ≈-safe (same `integrity_constraint(:- , .)` token run).
    assert_eq!(fmt(":-.\n", 100), ":- .");
}

#[test]
fn aggregate_with_an_interior_comment_degrades_to_verbatim() {
    // A comment inside the element list can't be laid out faithfully until
    // comment re-injection, so the element list degrades to its
    // verbatim source span (byte-exact, ≈-safe: the `;`, both atoms, AND the
    // comment all survive) rather than risk the comment swallowing a token.
    let out = fmt("{ a; % note\nb } :- c.\n", 100);
    assert!(out.contains("% note"), "the comment must survive: {out:?}");
    assert!(out.contains("a;"), "the elements must survive: {out:?}");
    assert!(out.contains('b'), "the elements must survive: {out:?}");
}

// ----- conditional literals (`literal : condition`) -----

#[test]
fn conditional_literal_condition_hangs_one_further_level() {
    // The conditional `:` is a connective opener that trails the literal,
    // so when the conditional literal breaks the condition hangs one further
    // level. Here the rule breaks (body drops to indent 4) and the conditional
    // literal itself breaks (the condition `c, d` drops to indent 8 — 4 + 4 —
    // and, fitting there, stays flat). The bare literal verbatim would overflow
    // as one blob; descending into the `:` is what lets it break.
    let out = fmt("a :- bbb : c, d.\n", 14);
    assert_eq!(out, "a :-\n    bbb :\n        c, d.");
}

#[test]
fn conditional_literal_empty_condition_is_total() {
    // `p :` — a conditional literal with NO condition node — is a valid,
    // error-free parse (it reaches the emitter, not the verbatim degrade). The
    // trailing neck over an empty body must hang NOTHING: `p :`, the `:` spaced
    // before with no trailing space, the rule's `.` then abutting (`p :.`).
    // (Mirrors the leading neck's bodyless `:- .`; without it the unconditional
    // drop-line leaves a spurious space after the `:`.)
    assert_eq!(fmt("a :- p :.\n", 100), "a :- p :.");
    // The wider literal form, same shape.
    assert_eq!(fmt("a :- p(X) :.\n", 100), "a :- p(X) :.");
}

#[test]
fn set_aggregate_element_condition_explodes_under_recursive_minimal() {
    // A choice/aggregate element (`set_aggregate_element`) is structurally
    // a conditional literal (`literal : condition`), so when the element overflows
    // its line the condition must hang one further level — exactly as a
    // body-level conditional does. Before the fix the element degraded to an
    // unbreakable verbatim leaf and overflowed the width.
    let out = fmt("{ a(X) : c1(X), c2(X) }.\n", 16);
    assert_eq!(out, "{\n    a(X) :\n        c1(X),\n        c2(X)\n}.");
}

#[test]
fn bounded_choice_recursive_minimal_matches_spec_gallery_case_5() {
    // The gallery's recursive-minimal example, width 28:
    // the first element's condition explodes (it overflows); the short second
    // element stays flat; the exploded head still drops the body.
    let out = fmt(
        "1 { assign(T,S) : slot(S), available(S); waive(T) : optional(T) } 1 :- task(T).\n",
        28,
    );
    assert_eq!(
        out,
        "1 {\n    assign(T,S) :\n        slot(S),\n        available(S);\n    waive(T) : optional(T)\n} 1 :-\n    task(T)."
    );
}

#[test]
fn body_aggregate_element_condition_explodes_under_recursive_minimal() {
    // `body_aggregate_element` is `terms : condition` — the same conditional-literal
    // shape; its condition must hang when the element overflows (same root-cause fix).
    let out = fmt(":- #count{ X : c1(X), c2(X) } >= 1.\n", 18);
    assert_eq!(
        out,
        ":- #count{\n       X :\n           c1(X),\n           c2(X)\n   } >= 1."
    );
}

#[test]
fn optimize_element_weight_prefix_is_spaced_and_condition_hangs() {
    // `optimize_element` is `weight , terms : condition` — the `weight, terms` prefix
    // is a spaced comma-sequence (the trailing-neck head), then `: condition` is the
    // conditional connective whose condition hangs when the element overflows.
    let out = fmt("#minimize{ C@1, T : cost(T,C) }.\n", 20);
    assert_eq!(out, "#minimize{\n    C@1, T :\n        cost(T,C)\n}.");
}

#[test]
fn optimize_element_normalizes_interior_spacing() {
    // Authored tight (`C@1,T:cost(T,C)`); the comma is spaced (depth-1) and the
    // conditional `:` is spaced both sides — no longer a verbatim passthrough.
    let out = fmt("#minimize{C@1,T:cost(T,C)}.\n", 100);
    assert_eq!(out, "#minimize{ C@1, T : cost(T,C) }.");
}

#[test]
fn head_aggregate_element_double_colon_normalizes_and_first_colon_hangs() {
    // `head_aggregate_element` is `terms : literal [: condition]`. The FIRST `:` is
    // the connective (the literal hangs under the terms); a SECOND `:` (the guard
    // condition) is a spaced trailing separator riding with the literal in the body.
    // Flat: both colons spaced.
    assert_eq!(
        fmt("1 #count{ X : p(X) : q(X) }.\n", 100),
        "1 #count{ X : p(X) : q(X) }."
    );
    // Broken: the literal hangs one level under the terms (width 28 — the smallest
    // where the hung `plongername(Xlong)` fits at indent 8, isolating the first-colon
    // hang from the literal's own arg explosion).
    let out = fmt("1 #count{ Xlong : plongername(Xlong) }.\n", 28);
    assert_eq!(
        out,
        "1 #count{\n    Xlong :\n        plongername(Xlong)\n}."
    );
}

#[test]
fn conditional_literal_stays_flat_when_it_fits() {
    // Flat: the `:` spaced both sides, the condition a spaced `,`-list.
    let out = fmt("a :- bbb : c, d.\n", 100);
    assert_eq!(out, "a :- bbb : c, d.");
}

#[test]
fn conditional_literal_condition_explodes_one_per_line() {
    // Narrower than the hang-one-further-level case: now the condition itself
    // overflows at indent 8, so it explodes one literal per line with the `,`
    // trailing — the separated-sequence rule, two levels under the rule body.
    let out = fmt("a :- bbb : c, d.\n", 12);
    assert_eq!(out, "a :-\n    bbb :\n        c,\n        d.");
}

#[test]
fn conditional_literal_condition_comma_is_spaced() {
    // The condition is a depth-0 separated sequence, so its `,` is spaced
    // (`c,d` normalizes to `c, d`) exactly like a body conjunction.
    let out = fmt("a :- b : c,d.\n", 100);
    assert_eq!(out, "a :- b : c, d.");
}

#[test]
fn conditional_literal_as_head_composes_via_disjunction() {
    // A head conditional literal (`a : b.`) parses as a single-element
    // `disjunction` wrapping the conditional literal, so it composes through
    // the separated-sequence path with no special case.
    assert_eq!(fmt("a : b.\n", 100), "a : b.");
    // Broken: the condition hangs one further level under the conditional `:`.
    assert_eq!(fmt("aaa : bbb.\n", 8), "aaa :\n    bbb.");
}

#[test]
fn conditional_colon_never_abuts_a_following_classical_negation() {
    // Witness: the conditional `:` must never abut a following `-`
    // (`:-` would fuse into a neck). A condition opening with a classically
    // negated literal keeps the space: `b : -c`, never `b :-c`.
    let out = fmt("a :- b : -c.\n", 100);
    assert_eq!(out, "a :- b : -c.");
}

// ----- applicative atoms / functions, argument lists & pools -----

#[test]
fn predicate_argument_comma_is_spaced_at_depth_1() {
    // A single-bracket argument comma is SPACED (depth 1), so a tight
    // source `edge(X,Y)` normalizes to `edge(X, Y)` — in head AND body.
    assert_eq!(
        fmt("edge(X,Y) :- node(X),node(Y).\n", 100),
        "edge(X, Y) :- node(X), node(Y)."
    );
}

#[test]
fn nested_argument_comma_tightens_at_depth_2() {
    // A comma two brackets deep is TIGHT. The outer arg comma stays
    // spaced (depth 1); the inner comma tightens (depth 2) — a SPACED-source
    // inner `g(Y, Z)` must close up to `g(Y,Z)`.
    assert_eq!(fmt("p(X, g(Y, Z)).\n", 100), "p(X, g(Y,Z)).");
}

#[test]
fn classical_negation_carries_through_and_args_normalize() {
    // Classical `-` abuts its name (tight); the args still normalize at
    // their depth — `-p(X,Y)` tightens nothing at the neg but spaces the comma.
    assert_eq!(fmt("-p(X,Y) :- q(X).\n", 100), "-p(X, Y) :- q(X).");
}

#[test]
fn argument_pool_semicolon_is_spaced_at_depth_1() {
    // A 2-segment argument pool: the `;` is depth-1, so SPACED. A
    // tight source `f(a;b)` normalizes to `f(a; b)`.
    assert_eq!(fmt("p :- f(a;b).\n", 100), "p :- f(a; b).");
}

#[test]
fn nested_argument_pool_tightens_at_depth_2() {
    // The pool `;` shares the comma threshold: two brackets deep it tightens.
    assert_eq!(fmt("p :- g(f(a; b)).\n", 100), "p :- g(f(a;b)).");
}

#[test]
fn zero_ary_atom_is_unchanged() {
    assert_eq!(fmt("p :- q.\n", 100), "p :- q.");
}

#[test]
fn external_function_at_abuts_name_and_args_normalize() {
    // `@f(...)` is a term: the `@` abuts the name, the args normalize at depth 1.
    assert_eq!(fmt("p(X) :- X = @f(1,2).\n", 100), "p(X) :- X = @f(1, 2).");
}

#[test]
fn long_argument_list_explodes_one_per_line() {
    // Separated-sequence: the arg list fit-or-explodes, comma trailing,
    // recursive-minimal, at indent 4 inside the parens.
    let out = fmt("p(alpha, beta, gamma) :- q.\n", 12);
    assert_eq!(out, "p(\n    alpha,\n    beta,\n    gamma\n) :-\n    q.");
}

// ----- tuples & the semantic comma -----

#[test]
fn multi_tuple_comma_is_spaced_at_depth_1() {
    // A `(a, b)` tuple is a bracketed term; its depth-1 comma is spaced (a tight
    // source `(a,b)` normalizes to `(a, b)`).
    assert_eq!(fmt("p(X) :- X = (a,b).\n", 100), "p(X) :- X = (a, b).");
}

#[test]
fn zero_tuple_is_empty_parens() {
    // `()` is the 0-tuple — empty parens, never `( )`.
    assert_eq!(fmt("p :- q = ().\n", 100), "p :- q = ().");
}

#[test]
fn one_tuple_comma_is_preserved_hugged() {
    // `(a,)` is a 1-tuple, arity-distinct from `(a)`. The trailing
    // comma is SEMANTIC — preserved, hugged (never `(a, )`, never `(a)`).
    assert_eq!(fmt("p(X) :- X = (a,).\n", 100), "p(X) :- X = (a,).");
}

#[test]
fn nested_tuple_comma_tightens_at_depth_2() {
    // A tuple is a bracket: its interior is depth+1. A tuple inside a function
    // arg is two brackets deep, so its comma tightens — `f((a, b))` → `f((a,b))`.
    assert_eq!(fmt("p :- f((a, b)).\n", 100), "p :- f((a,b)).");
}

#[test]
fn tuple_pool_semicolon_is_spaced_at_depth_1() {
    // A `(a; b)` tuple pool: the `;` is depth-1, so spaced.
    assert_eq!(fmt("p(X) :- X = (a;b).\n", 100), "p(X) :- X = (a; b).");
}

#[test]
fn lone_comma_tuple_is_preserved_verbatim() {
    // `(,)` — a bare comma — is a totality edge case, preserved as authored.
    assert_eq!(fmt("p(X) :- X = (,).\n", 100), "p(X) :- X = (,).");
}

#[test]
fn empty_pool_segment_is_preserved_verbatim() {
    // An empty pool segment (`f(a;;b)`) is a totality edge case — preserve the
    // author's exact form rather than render the empty segment with stray spaces.
    assert_eq!(fmt("p :- f(a;;b).\n", 100), "p :- f(a;;b).");
}

// ----- term operators (binary, unary, interval) -----

#[test]
fn term_operator_is_spaced_at_top_body_level() {
    // A term operator breathes at the top body level — a tight `Y*2`
    // normalizes to `Y * 2`.
    assert_eq!(fmt("p(X) :- X = Y*2.\n", 100), "p(X) :- X = Y * 2.");
}

#[test]
fn term_operator_tightens_inside_a_bracket() {
    // Tight inside any bracket — a spaced `Y + Z` inside an arg list closes
    // up to `Y+Z`.
    assert_eq!(fmt("p :- q(X, Y + Z).\n", 100), "p :- q(X, Y+Z).");
}

#[test]
fn interval_is_always_tight() {
    // `..` is ALWAYS tight, even at the top body level — a spaced
    // `1 .. 3` closes up to `1..3`.
    assert_eq!(fmt("p(X) :- X = 1 .. 3.\n", 100), "p(X) :- X = 1..3.");
}

#[test]
fn unary_minus_abuts_its_operand() {
    // Unary `-` is tight — `- Y` normalizes to `-Y`.
    assert_eq!(fmt("p(X) :- X = - Y.\n", 100), "p(X) :- X = -Y.");
}

#[test]
fn torture_term_round_trips_tight_inside_brackets() {
    // The oracle: every fixed term-op seam abuts safely inside a
    // bracket (depth 1, all tight). `+-`→ADD·SUB, `**-`→POW·SUB, `2**`→`2`·POW,
    // `0..1`→NUM·DOTS·NUM (clingo has no float literals). Round-trips exactly.
    assert_eq!(
        fmt("p :- q(1+-2*2**-3**0..1-2).\n", 100),
        "p :- q(1+-2*2**-3**0..1-2)."
    );
}

#[test]
fn top_level_operator_chain_spaces_uniformly() {
    // At the top body level operators breathe; a flat chain spaces every op
    // (precedence-agnostic, FLAT v0). `X = 1+2*3` → `X = 1 + 2 * 3`.
    assert_eq!(fmt("p(X) :- X = 1+2*3.\n", 100), "p(X) :- X = 1 + 2 * 3.");
}

// ----- abs |t| / |t; ...| -----

#[test]
fn abs_singleton_is_tight() {
    // `|Y|` hugs the bars (Pad::Tight).
    assert_eq!(fmt("p(X) :- X = |Y|.\n", 100), "p(X) :- X = |Y|.");
}

#[test]
fn abs_pool_semicolon_is_spaced_at_depth_1() {
    // An abs pool `|a; b|`: the `;` is depth-1 (abs is a bracket, +depth), spaced.
    assert_eq!(fmt("p(X) :- X = |a;b|.\n", 100), "p(X) :- X = |a; b|.");
}

#[test]
fn abs_interior_term_operator_is_tight() {
    // `|X-F|` is tight — abs counts as a bracket (+depth), so the interior
    // term op is at depth 1 → tight. A spaced `|Y - Z|` closes up to `|Y-Z|`.
    assert_eq!(fmt("p(X) :- X = |Y - Z|.\n", 100), "p(X) :- X = |Y-Z|.");
}

#[test]
fn abs_nested_pool_tightens_at_depth_2() {
    // `|f(a; b)|`: the inner pool `;` is two brackets deep (abs + parens) → tight.
    assert_eq!(
        fmt("p(X) :- X = |f(a; b)|.\n", 100),
        "p(X) :- X = |f(a;b)|."
    );
}

// ----- golden forms (the house style `verify` cannot check) -----

#[test]
fn family4_golden_flat_forms() {
    // Worked house-style forms at width 100 (flat). Each `want` is pinned from an
    // actual run (the depth rules: `f(b,c)` at depth 2 is TIGHT inside `q(…)`).
    for (src, want) in [
        ("p(X,Y):-q(X,Y).\n", "p(X, Y) :- q(X, Y)."),
        ("p:-q(a,f(b,c)).\n", "p :- q(a, f(b,c))."),
        ("p(X):-X=1..n.\n", "p(X) :- X = 1..n."),
        ("p(X):-X= -Y* (Z+1).\n", "p(X) :- X = -Y * (Z+1)."),
        ("p(X):-X=|a;b|.\n", "p(X) :- X = |a; b|."),
    ] {
        assert_eq!(fmt(src, 100), want, "golden: {src:?}");
    }
}

// ----- theory elements & term lists -----

#[test]
fn theory_element_multi_term_comma_is_spaced() {
    // A theory element's comma-list normalizes at depth 1 (inside the atom brace):
    // a tight source `x,y` becomes `x, y`.
    assert_eq!(fmt("&a { x,y } :- b.\n", 100), "&a{ x, y } :- b.");
}

#[test]
fn theory_element_condition_lays_out_like_a_conditional() {
    // `terms : condition` is the conditional-literal shape; the `:` is spaced both
    // sides and the condition is a `,`-list.
    assert_eq!(fmt("&a { x : p,q } :- b.\n", 100), "&a{ x : p, q } :- b.");
}


// ----- theory operators (always spaced, never tightened) -----

#[test]
fn theory_binary_operator_is_spaced() {
    // A theory operator is rendered with surrounding spaces — a tight source
    // `x-y` normalizes to `x - y` (≈-safe: `x`,`-`,`y` either way).
    assert_eq!(fmt("&a { x-y } :- b.\n", 100), "&a{ x - y } :- b.");
}

#[test]
fn theory_unary_operator_gets_a_space() {
    // The accepted consequence of the always-spaced rule: a
    // unary theory operator is spaced from its operand — `-x` becomes `- x`.
    assert_eq!(fmt("&a { -x } :- b.\n", 100), "&a{ - x } :- b.");
}

#[test]
fn theory_adjacent_operators_stay_spaced() {
    // The greedy-munch carve-out: two adjacent theory operators NEVER abut
    // (`+ +` ≠ `++`). An already-spaced `+ +` is preserved as two tokens.
    assert_eq!(fmt("&a { x + + y } :- b.\n", 100), "&a{ x + + y } :- b.");
}

#[test]
fn theory_operator_chain_spaces_uniformly() {
    assert_eq!(fmt("&a { x*y+z } :- b.\n", 100), "&a{ x * y + z } :- b.");
}

// ----- bracketed theory terms (function / tuple / list / set) -----

#[test]
fn theory_function_args_normalize() {
    // A theory function's `(args)` abut the name; the comma-list tightens (depth 2
    // inside the atom brace + parens) — a spaced source `f(x, y)` closes to `f(x,y)`.
    assert_eq!(fmt("&a { f(x, y) } :- b.\n", 100), "&a{ f(x,y) } :- b.");
}

#[test]
fn theory_tuple_and_one_tuple_comma() {
    assert_eq!(fmt("&a { (x, y) } :- b.\n", 100), "&a{ (x,y) } :- b.");
    // The 1-tuple trailing comma is semantic — preserved, hugged.
    assert_eq!(fmt("&a { (x,) } :- b.\n", 100), "&a{ (x,) } :- b.");
}

#[test]
fn theory_list_and_set_brackets_are_tight() {
    assert_eq!(fmt("&a { [x, y] } :- b.\n", 100), "&a{ [x,y] } :- b.");
    assert_eq!(fmt("&a { {x, y} } :- b.\n", 100), "&a{ {x,y} } :- b.");
}

#[test]
fn theory_lone_comma_tuple_degrades_to_verbatim() {
    // `(,)` is a totality edge case — preserved as authored.
    assert_eq!(fmt("&a { (,) } :- b.\n", 100), "&a{ (,) } :- b.");
}

// ----- theory atom upper bound (op term) -----

#[test]
fn theory_atom_upper_normalizes_operator_spacing() {
    // The upper `op term` — a tight source `<=3` becomes `<= 3` (always-spaced
    // theory operator). The leading space before `<=` comes from the `}` closer tail.
    assert_eq!(fmt("&a { x } <=3 :- b.\n", 100), "&a{ x } <= 3 :- b.");
}

#[test]
fn theory_atom_upper_formats_its_term() {
    // The upper's term descends like any theory term — `x+y` → `x + y`.
    assert_eq!(fmt("&a { p } = x+y :- b.\n", 100), "&a{ p } = x + y :- b.");
}

#[test]
fn theory_atom_upper_existing_family2_form_unchanged() {
    // Regression: the already-spaced form is byte-identical.
    assert_eq!(
        fmt("&diff { x - y } <= 3 :- a.\n", 100),
        "&diff{ x - y } <= 3 :- a."
    );
}

// ----- #theory definitions -----

#[test]
fn theory_operator_definition_unary_and_binary() {
    // `op : priority, arity[, associativity]` — the `,` field separators normalize
    // to `, ` (always spaced). The operator MUST be authored spaced from the `:`
    // (a tight `-:` greedy-munches into one theory operator — invalid input), so the
    // `op :` seam is already spaced; the formatter normalizes the comma seams.
    assert_eq!(
        fmt("#theory t { d { - : 0,unary } }.\n", 100),
        "#theory t { d { - : 0, unary } }."
    );
    assert_eq!(
        fmt("#theory t { d { + : 1,binary,left } }.\n", 100),
        "#theory t { d { + : 1, binary, left } }."
    );
}

#[test]
fn theory_block_explodes_one_definition_per_line() {
    // The #theory block is a Pad::Spaced bracket; definitions explode one per line
    // (the `;` trailing) at indent 4 with `}.` dedented.
    let out = fmt(
        "#theory t { d1 { - : 0, unary }; d2 { + : 0, unary } }.\n",
        30,
    );
    assert_eq!(
        out,
        "#theory t {\n    d1 { - : 0, unary };\n    d2 { + : 0, unary }\n}."
    );
}

#[test]
fn theory_directive_stays_flat_when_it_fits() {
    assert_eq!(
        fmt("#theory t { d { - : 0, unary } }.\n", 100),
        "#theory t { d { - : 0, unary } }."
    );
}

#[test]
fn theory_atom_definition_minimal() {
    // `&name/arity : term_name, atom_type` — `&n/a` tight, ` : ` spaced, the `,`
    // field separator normalizes to `, `.
    assert_eq!(
        fmt("#theory t { &a/0 : trm,any }.\n", 100),
        "#theory t { &a/0 : trm, any }."
    );
}

#[test]
fn theory_atom_definition_with_guard_set() {
    // The guard `{ ops }` is a Pad::Tight set with always-spaced operator commas
    // (`{<=, >=}`); the surrounding field `,`s normalize to `, `.
    assert_eq!(
        fmt("#theory t { &a/0 : trm,{<=,>=},g,body }.\n", 100),
        "#theory t { &a/0 : trm, {<=, >=}, g, body }."
    );
}

#[test]
fn theory_worked_golden_definition() {
    // Worked #theory case — a term definition + an atom definition, flat.
    // (Operators are authored spaced from the `:` — a tight `-:` would munch.)
    let src = "#theory diff { diff_term { - : 0,binary,left }; &diff/0 : diff_term,any }.\n";
    assert_eq!(
        fmt(src, 100),
        "#theory diff { diff_term { - : 0, binary, left }; &diff/0 : diff_term, any }."
    );
}

#[test]
fn theory_bare_colon_element_has_no_dangling_space() {
    // A degenerate theory element that is a bare `:` (a `_condition` with no terms
    // and no condition) hangs nothing: `&a{ : }`, NOT `&a{ :  }`. The theory family is the
    // first construct to reach `leading_neck` with empty body AND empty tail.
    assert_eq!(fmt("&a { : } :- b.\n", 100), "&a{ : } :- b.");
}

#[test]
fn theory_element_condition_with_leading_sign_never_fuses_neck() {
    // Witness: the element `:` must never abut a following classical `-`
    // (`:-` would fuse into a neck). `x : -p` stays spaced, never `x :-p`.
    assert_eq!(fmt("&a { x : -p } :- b.\n", 100), "&a{ x : -p } :- b.");
}

#[test]
fn family5_golden_flat_forms() {
    // Worked house-style theory forms at width 100 (flat), each pinned from an actual
    // run. The depth rules: a function/list/set interior at depth 2 (atom brace +
    // bracket) is TIGHT; theory operators are always spaced (incl. the unary `- x`).
    for (src, want) in [
        ("&a{x-y}:-b.\n", "&a{ x - y } :- b."),
        ("&a{-x}:-b.\n", "&a{ - x } :- b."), // always-spaced unary
        ("&a{f(x,y)}<=3:-b.\n", "&a{ f(x,y) } <= 3 :- b."),
        ("&a{(x,)}:-b.\n", "&a{ (x,) } :- b."),
        ("&a{[x,y];{z}}:-b.\n", "&a{ [x,y]; {z} } :- b."),
    ] {
        assert_eq!(fmt(src, 100), want, "golden: {src:?}");
    }
}

// ----- signature directives -----

#[test]
fn show_bare_glues_its_dot() {
    assert_eq!(fmt("#show .\n", 100), "#show.");
}

#[test]
fn defined_signature_is_tight_keyword_spaced() {
    // `#defined` is spaced from the signature; the signature's `/` is tight.
    assert_eq!(fmt("#defined p / 1 .\n", 100), "#defined p/1.");
}

#[test]
fn show_signature_with_boolean_tail() {
    assert_eq!(fmt("#show p/1. [true]\n", 100), "#show p/1. [true]");
}

#[test]
fn project_signature_classical_negation_in_signature() {
    // `atom_identifier`'s optional `-` abuts the name (`-p/1`).
    assert_eq!(fmt("#project -p/2.\n", 100), "#project -p/2.");
}


// ----- const & include -----

#[test]
fn const_binding_is_spaced_both_sides() {
    assert_eq!(fmt("#const n=3.\n", 100), "#const n = 3.");
}

#[test]
fn const_with_default_tail() {
    assert_eq!(
        fmt("#const n = 3. [default]\n", 100),
        "#const n = 3. [default]"
    );
}

#[test]
fn const_with_override_tail_and_arith_value() {
    // The value is a `_const_term`; `1+2` is its own layout, here
    // tight at depth 0? No — a bare top-level const arith is spaced (`1 + 2`);
    // pin from the run.
    assert_eq!(
        fmt("#const n = 1+2. [override]\n", 100),
        "#const n = 1 + 2. [override]"
    );
}

#[test]
fn include_string_is_keyword_spaced() {
    assert_eq!(fmt("#include \"lib.lp\".\n", 100), "#include \"lib.lp\".");
}

#[test]
fn include_angled_identifier_is_tight() {
    assert_eq!(fmt("#include <incmode>.\n", 100), "#include <incmode>.");
}

// ----- colon-body directives -----

#[test]
fn show_term_with_condition_flat() {
    assert_eq!(fmt("#show f(X):p(X).\n", 100), "#show f(X) : p(X).");
}

#[test]
fn show_term_no_condition() {
    // `#show t.` with no `: body` — the colon-body is just the `.`.
    assert_eq!(fmt("#show f(a).\n", 100), "#show f(a).");
}

#[test]
fn external_no_body_with_type_tail() {
    assert_eq!(
        fmt("#external p(X). [true]\n", 100),
        "#external p(X). [true]"
    );
}

#[test]
fn external_body_and_type_tail() {
    assert_eq!(
        fmt("#external p(X) : q(X). [false]\n", 100),
        "#external p(X) : q(X). [false]"
    );
}

#[test]
fn project_atom_with_body() {
    assert_eq!(fmt("#project p(X):q(X).\n", 100), "#project p(X) : q(X).");
}

#[test]
fn external_body_breaks_under_narrow_width() {
    // The `: body` drops to indent 4 like a rule body when the whole overflows.
    // The neck trails the head (`#external pred(X, Y) :`), the body drops to a
    // relative indent-4 block; here the body still overflows at indent 4 (its 22
    // flat cols exceed the 20 remaining), so it explodes one literal per line with
    // the `,` trailing and the `.` glued to the last — byte-identical in SHAPE to
    // `headed_rule_explodes_neck_trails_body_drops_indent_4`. Golden PINNED to the
    // actual run (the trailing-neck reuse): no trailing space — the `.` tail abuts
    // the final literal exactly as in a headed rule (idempotence note).
    let out = fmt("#external pred(X, Y) : edge(X, Z), edge(Z, Y).\n", 24);
    assert_eq!(
        out,
        "#external pred(X, Y) :\n    edge(X, Z),\n    edge(Z, Y)."
    );
}

// ----- #program & #heuristic -----

#[test]
fn program_no_params() {
    assert_eq!(fmt("#program base.\n", 100), "#program base.");
}

#[test]
fn program_with_params() {
    assert_eq!(fmt("#program acid(k,t).\n", 100), "#program acid(k, t).");
}

#[test]
fn program_empty_params() {
    // `#program p().` — empty parens hug.
    assert_eq!(fmt("#program p().\n", 100), "#program p().");
}

#[test]
fn heuristic_weight_and_type_tail() {
    // `@` is tight (`2@1`); the `,` in the tail is spaced (`[2@1, sign]`).
    assert_eq!(
        fmt("#heuristic a(X) : b(X). [2@1,sign]\n", 100),
        "#heuristic a(X) : b(X). [2@1, sign]"
    );
}

#[test]
fn heuristic_simple_weight() {
    assert_eq!(
        fmt("#heuristic a. [3,true]\n", 100),
        "#heuristic a. [3, true]"
    );
}

// ----- #edge -----

#[test]
fn edge_single_pair() {
    assert_eq!(fmt("#edge (a,b).\n", 100), "#edge (a, b).");
}

#[test]
fn edge_pair_pool_semicolon_spaced() {
    assert_eq!(fmt("#edge (a,b;c,d).\n", 100), "#edge (a, b; c, d).");
}

#[test]
fn edge_with_condition() {
    assert_eq!(
        fmt("#edge (u,v):reach(u,v).\n", 100),
        "#edge (u, v) : reach(u, v)."
    );
}

#[test]
fn edge_multi_pair_with_condition_keeps_semicolon_spacing() {
    // The `;` between pairs must keep its space even when a `: condition` routes the
    // pairs into the trailing-neck head (concat path).
    assert_eq!(
        fmt("#edge (a,b;c,d):reach.\n", 100),
        "#edge (a, b; c, d) : reach."
    );
}

// ----- weak constraint, #script, doc_comment -----

#[test]
fn weak_constraint_flat_with_weight_priority_tail() {
    assert_eq!(
        fmt(":~ p(X), q(X). [1@2, X]\n", 100),
        ":~ p(X), q(X). [1@2, X]"
    );
}

#[test]
fn weak_constraint_simple_weight_tail() {
    assert_eq!(fmt(":~ p(X). [1]\n", 100), ":~ p(X). [1]");
}

#[test]
fn weak_constraint_body_breaks_neck_leads() {
    // Leading-neck like an integrity constraint (cf. the IC gallery case): the neck
    // leads, the first literal rides it, the rest hang at the neck width (3), and the
    // `[w]` tail rides after the dot. Width PINNED to 30 from the actual run: at
    // width 22 the second literal `assign(T, S2)` further explodes its args
    // (its hang line `   assign(T, S2). [1@1]` is 23 cols > 22), which muddies the
    // canonical shape; ≥23 yields the intended clean one-per-line golden.
    let out = fmt(":~ assign(T, S1), assign(T, S2). [1@1]\n", 30);
    assert_eq!(out, ":~ assign(T, S1),\n   assign(T, S2). [1@1]");
}

#[test]
fn weak_constraint_body_breaks_keeps_full_tail_spacing() {
    // The task's explicit concern: a `[w@p, terms]` tail (multiple bracket elements)
    // must keep its spacing when the body BREAKS. The whole tail (`.` + the gobbled
    // `[1@2, X]`) rides after the last body literal via `leading_neck`'s `concat` —
    // the bracket interior `, ` is baked literal by `bracket_tail`, so nothing drops.
    // Width PINNED to 30 (the longer tail needs ≥26 for the clean one-per-line shape).
    let out = fmt(":~ assign(T, S1), assign(T, S2). [1@2, X]\n", 30);
    assert_eq!(out, ":~ assign(T, S1),\n   assign(T, S2). [1@2, X]");
}

#[test]
fn script_wrapper_spaced_body_verbatim() {
    // `#script (lang)` spaced; the body byte-exact; `#end.` glued.
    let src = "#script (python)\ndef f():\n    return 1\n#end.\n";
    assert_eq!(
        fmt(src, 100),
        "#script (python)\ndef f():\n    return 1\n#end."
    );
}

// ----- hardening (golden table, depth-safety, swept Minors) -----

#[test]
fn family6_golden_flat_forms() {
    // Worked house-style directive forms at width 100 (flat), each pinned from a
    // run. The inputs are de-housed (no spaces, glued tails) so a regression that
    // stopped normalizing would fail RED — the output is the house form.
    for (src, want) in [
        ("#show .\n", "#show."),
        ("#defined p/1 .\n", "#defined p/1."),
        ("#const n=3. [default]\n", "#const n = 3. [default]"),
        (
            "#external p(X):q(X). [true]\n",
            "#external p(X) : q(X). [true]",
        ),
        (
            "#heuristic a:b. [2@1,sign]\n",
            "#heuristic a : b. [2@1, sign]",
        ),
        ("#edge (a,b;c,d).\n", "#edge (a, b; c, d)."),
        ("#program acid(k,t).\n", "#program acid(k, t)."),
        (":~ p. [1@2,a]\n", ":~ p. [1@2, a]"),
    ] {
        assert_eq!(fmt(src, 100), want, "golden: {src:?}");
    }
}

#[test]
fn external_body_descends_deeply_without_overflow() {
    // A deeply-nested directive body must descend and return — the directive rides
    // the same iterative work-list as every other construct.
    let n = 2000;
    let src = format!("#external {}p0{} : q.\n", "f(".repeat(n), ")".repeat(n));
    let out = fmt(&src, 80);
    assert!(
        out.starts_with("#external f("),
        "deep directive body must descend"
    );
    assert!(out.contains("p0"), "the innermost term must be reached");
}

#[test]
fn include_normalizes_noncanonical_spacing() {
    // A non-canonical `#include` (extra keyword space, space before the dot,
    // padded `< id >`) normalizes — one keyword space, the `<id>` tight, the dot
    // glued. ≈-safe (same token run); the angle-bracket form AND the string form.
    assert_eq!(fmt("#include  <incmode> .\n", 100), "#include <incmode>.");
    assert_eq!(fmt("#include  \"lib.lp\" .\n", 100), "#include \"lib.lp\".");
}

#[test]
fn colon_less_directives_are_bare() {
    // The colon-less `_colon_body` forms — `#external p.` and `#project p(X).`
    // carry no `:` connective, so they fall to the flat shape (keyword spaced, dot
    // glued), never a dangling `:` or trailing space.
    assert_eq!(fmt("#external p.\n", 100), "#external p.");
    assert_eq!(fmt("#project p(X).\n", 100), "#project p(X).");
}

#[test]
fn external_colon_body_with_type_tail_breaks_under_narrow_width() {
    // A colon-body `#external` with a `[type]` tail at narrow width — the body
    // drops to indent 4 (trailing-neck) and the `. [false]` tail rides after the
    // last literal, its bracket spacing intact (the tail is one baked Element). The
    // `[false]` never detaches from the dot when the body explodes.
    let out = fmt("#external pred(X) : edge(X, Z), edge(Z, Y). [false]\n", 24);
    assert_eq!(
        out,
        "#external pred(X) :\n    edge(X, Z),\n    edge(Z, Y). [false]"
    );
}

#[test]
fn program_params_explode_under_narrow_width() {
    // `#program`'s `(params)` ride the SHARED bracketed machinery, so an
    // over-long parameter list explodes one identifier per line with the `,`
    // trailing, exactly like a function argument list (`lower_program` → the
    // assembler's bracketed path).
    let out = fmt("#program acid(kk, tt, uu, vv).\n", 12);
    assert_eq!(out, "#program acid(\n    kk,\n    tt,\n    uu,\n    vv\n).");
}

#[test]
fn edge_parens_explode_but_pairs_stay_flat() {
    // At narrow width the `#edge` parens may explode (the bracketed body drops
    // to indent 4), but the pairs stay FLAT — the pair `,` and the pool `;` are
    // baked literal spaces (mode-invariant), never break points (`lower_edge` has no
    // depth model; `lower_edge_pair`'s `,` is at depth 0). The pairs render
    // identically whether `#edge` lays out bracketed or as a trailing-neck head.
    assert_eq!(
        fmt("#edge (aaa, bbb; ccc, ddd).\n", 12),
        "#edge (\n    aaa, bbb; ccc, ddd\n)."
    );
    assert_eq!(
        fmt("#edge (aaa, bbb; ccc, ddd) : reach.\n", 12),
        "#edge (aaa, bbb; ccc, ddd) :\n    reach."
    );
}

#[test]
fn doc_comment_round_trips_verbatim() {
    // A first-class statement, preserved verbatim; the emitter changes nothing.
    let src = "%*! p/1 a predicate *%\np(1).\n";
    let out = fmt(src, 100);
    assert!(out.contains("%*! p/1 a predicate *%"));
    assert!(out.contains("p(1)."));
}

