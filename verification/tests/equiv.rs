//! The `≈` certificate: its witness, its report, the round trip through the
//! formatter, and the comment-bearing inputs it must survive.

use kallos::cst::{clingo_field_id, clingo_kind_id, read_source, Cst, KindIds};
use kallos::equiv::{equivalent, first_divergence, roundtrip_outcome, verify_against, NodeWitness, Outcome};
use kallos::{has_error, verify, Mismatch, StructuralMismatch, Style};

fn cst(src: &str) -> Cst {
    read_source(src).expect("the grammar parses any string")
}

fn format_at_width(src: &str, width: usize) -> String {
    kallos::emit::format(src, &Style::default().with_line_width(width))
}

#[test]
fn verify_agrees_with_roundtrip_on_error_free_input() {
    for src in [
        "a :- b, c.\n",
        "p(X) :- X = (a; b).\n",
        ":~ p(X). [1@2, X]\n",
    ] {
        for width in [8usize, 100] {
            assert_eq!(
                verify(src, &Style::default().with_line_width(width)),
                Ok(()),
                "verify must be Ok on error-free {src:?} @ {width}"
            );
            assert!(matches!(roundtrip_outcome(src, width), Outcome::Equivalent));
        }
    }
}

#[test]
fn first_divergence_localizes_a_structural_mismatch() {
    // `a :- b.` vs `a :- c.` agree structurally up to the `identifier` leaf, which
    // diverges in text; the witness carries the input byte range 5..6.
    let m = first_divergence(&cst("a :- b."), "a :- b.", &cst("a :- c."), "a :- c.")
        .expect("a differing leaf must witness a structural mismatch");
    let Mismatch::Structure(s) = m else {
        panic!("expected a structural mismatch, got {m:?}");
    };
    assert_eq!((s.start, s.end), (5, 6));
    let expected = s.expected.as_ref().expect("input side present");
    let found = s.found.as_ref().expect("output side present");
    assert_eq!(expected.kind, KindIds::new().identifier);
    assert_eq!(expected.text.as_deref(), Some("b"));
    assert_eq!(found.text.as_deref(), Some("c"));
}

#[test]
fn first_divergence_localizes_a_comment_mismatch() {
    let m = first_divergence(&cst("a. % hi"), "a. % hi", &cst("a. % bye"), "a. % bye")
        .expect("a differing comment must witness a comment mismatch");
    let Mismatch::Comment(c) = m else {
        panic!("expected Comment, got {m:?}");
    };
    assert_eq!(c.index, 0);
    assert_eq!(c.expected.as_deref(), Some("% hi"));
    assert_eq!(c.found.as_deref(), Some("% bye"));
}

#[test]
fn first_divergence_is_none_when_equivalent() {
    assert!(first_divergence(&cst("a :- b."), "a :- b.", &cst("a:-b."), "a:-b.").is_none());
    assert!(first_divergence(&cst("a. % hi"), "a. % hi", &cst("a. % hi   "), "a. % hi   ").is_none());
}

#[test]
fn first_divergence_witnesses_a_child_count_divergence() {
    // A rule with a body vs a bare fact: both are `rule` nodes of different arity.
    let m = first_divergence(&cst("a :- b."), "a :- b.", &cst("a."), "a.")
        .expect("differing child arity must witness a structural mismatch");
    let Mismatch::Structure(s) = m else {
        panic!("expected a structural mismatch, got {m:?}");
    };
    assert_eq!((s.start, s.end), (0, 7));
    let expected = s.expected.as_ref().expect("input side present");
    let found = s.found.as_ref().expect("output side present");
    let k = KindIds::new();
    assert_eq!(expected.kind, k.rule);
    assert_eq!(found.kind, k.rule);
    assert!(expected.text.is_none(), "an interior node carries no leaf text");
}

#[test]
fn first_divergence_witnesses_comment_stream_exhaustion() {
    let m = first_divergence(&cst("a. %x"), "a. %x", &cst("a."), "a.")
        .expect("a trailing comment with no counterpart must witness a comment mismatch");
    let Mismatch::Comment(c) = m else {
        panic!("expected Comment, got {m:?}");
    };
    assert_eq!(c.index, 0);
    assert_eq!(c.expected.as_deref(), Some("%x"));
    assert!(c.found.is_none(), "the shorter (output) comment sequence is exhausted");
}

#[test]
fn mismatch_display_is_localizing() {
    let m = first_divergence(&cst("a :- b."), "a :- b.", &cst("a :- c."), "a :- c.")
        .expect("structural witness");
    let s = m.to_string();
    assert!(s.contains("5..6"), "the report carries the byte range: {s}");
    assert!(
        s.contains("\"b\"") && s.contains("\"c\""),
        "and the diverging text on each side: {s}"
    );
    let cm = first_divergence(&cst("a. % hi"), "a. % hi", &cst("a. % bye"), "a. % bye")
        .expect("comment witness");
    let cs = cm.to_string();
    assert!(cs.contains("% hi") && cs.contains("% bye"), "comment report carries both texts: {cs}");
}

#[test]
fn display_distinguishes_interior_nodes_by_child_count() {
    let rule = KindIds::new().rule;
    let m = Mismatch::Structure(Box::new(StructuralMismatch {
        start: 0,
        end: 5,
        expected: Some(NodeWitness { kind: rule, field: 0, child_count: 3, text: None }),
        found: Some(NodeWitness { kind: rule, field: 0, child_count: 4, text: None }),
    }));
    let s = m.to_string();
    assert!(s.contains("rule (3 children)"), "expected side carries arity: {s}");
    assert!(s.contains("rule (4 children)"), "found side carries arity: {s}");
}

#[test]
fn display_carries_the_field_label() {
    let term = clingo_kind_id("term", true);
    let m = Mismatch::Structure(Box::new(StructuralMismatch {
        start: 0,
        end: 3,
        expected: Some(NodeWitness { kind: term, field: clingo_field_id("head"), child_count: 1, text: None }),
        found: Some(NodeWitness { kind: term, field: clingo_field_id("body"), child_count: 1, text: None }),
    }));
    let s = m.to_string();
    assert!(s.contains("head: term"), "expected side shows its field: {s}");
    assert!(s.contains("body: term"), "found side shows its field: {s}");
}

#[test]
fn roundtrip_preserves_error_free_input() {
    assert!(matches!(roundtrip_outcome("a :- b, c.\n", 80), Outcome::Equivalent));
    assert!(matches!(roundtrip_outcome(":- d(X), e(X).\n", 10), Outcome::Equivalent));
}

#[test]
fn roundtrip_skips_assertion_for_error_input() {
    assert!(matches!(roundtrip_outcome("a :- :- .\n", 80), Outcome::InputHasError));
}

#[test]
fn roundtrip_preserves_family4_arity_and_pools() {
    // The forms whose spacing changed must still round-
    // trip ≈ at every width — a synthesized or dropped comma is an arity
    // violation, a fused operator/pool seam is a token violation. (Each input is
    // error-free, so a non-`Equivalent` here is a real defect, not a parse skip.)
    for src in [
        "p(X) :- X = (a,).\n",   // 1-tuple — comma is semantic
        "p :- q = ().\n",        // 0-tuple
        "p :- f(a; b).\n",       // argument pool
        "p(X) :- X = (a; b).\n", // tuple pool
        "p :- q(X, g(Y,Z)).\n",  // depth-2 comma tighten
        "p :- g(f(a; b)).\n",    // depth-2 pool `;` (the produced Tight `;`)
        "p(X) :- X = 1..3.\n",   // interval
        "p :- q(1+-2*2**0).\n",  // tight operator chain
        "p(X) :- X = |a; b|.\n", // abs pool
        "a :- p :.\n",           // empty-condition conditional `:` abutting `.`
    ] {
        for width in [1usize, 8, 100] {
            assert!(
                matches!(roundtrip_outcome(src, width), Outcome::Equivalent),
                "≈ violation at width {width}: {src:?}"
            );
        }
    }
}

#[test]
fn roundtrip_preserves_family5_theory() {
    // The theory forms whose spacing changed must still round-trip ≈
    // at every width — an always-spaced operator must not fuse a seam, a normalized
    // comma must not be synthesized or dropped, the `#theory` definition layout must
    // preserve every token. (Each input is error-free, so a non-`Equivalent` is a
    // real defect, not a parse skip.)
    for src in [
        "&a { x - y } <= 3 :- b.\n",      // binary op + the `op term` upper
        "&a { - x } :- b.\n",             // unary (always-spaced)
        "&a { x + + y } :- b.\n",         // adjacent operators never fuse (`+ +`≠`++`)
        "&a { x : -p } :- b.\n",          // element `:` before a sign never fuses to `:-`
        "&a { f(x, y); (p, q) } :- b.\n", // theory function + tuple elements
        "&a { [x]; {y} } :- b.\n",        // theory list + set
        "#theory t { d { - : 0, binary, left }; &a/0 : d, any }.\n", // #theory definition
        "#theory t { &a/0 : trm, {<=, >=}, g, body }.\n", // guard set (theory-op vs `{ } ,`)
    ] {
        for width in [1usize, 8, 100] {
            assert!(
                matches!(roundtrip_outcome(src, width), Outcome::Equivalent),
                "≈ violation at width {width}: {src:?}"
            );
        }
    }
}

#[test]
fn roundtrip_preserves_family6_directives() {
    // The directive forms whose spacing changed must round-trip ≈ at every
    // width — a glued dot, a spaced keyword, a normalized signature/weight, the verbatim
    // #script body, must all preserve every token. (Each input is error-free.)
    for src in [
        "#show p/1. [true]\n",
        "#defined q/2.\n",
        "#const n = 1+2. [override]\n",
        "#external p(X) : q(X). [false]\n",
        "#heuristic a(X) : b(X). [2@1, sign]\n",
        "#edge (a, b; c, d).\n",
        "#program acid(k, t).\n",
        "#include <incmode>.\n",
        ":~ p(X), q(X). [1@2, X]\n",
        "#script (python)\nx = 1\n#end.\n",
    ] {
        for width in [1usize, 8, 100] {
            assert!(
                matches!(roundtrip_outcome(src, width), Outcome::Equivalent),
                "≈ violation at width {width}: {src:?}"
            );
        }
    }
}

#[test]
fn equivalent_ignores_whitespace_but_not_tokens() {
    assert!(equivalent(&cst("a :- b."), "a :- b.", &cst("a:-b."), "a:-b."));
    assert!(!equivalent(&cst("a :- b."), "a :- b.", &cst("a :- c."), "a :- c."));
    assert!(!equivalent(&cst("p(a,b)."), "p(a,b).", &cst("p(a;b)."), "p(a;b)."));
}

#[test]
fn equivalent_compares_comment_sequence_modulo_trailing_ws() {
    assert!(equivalent(&cst("a. % hi"), "a. % hi", &cst("a. % hi   "), "a. % hi   "));
    assert!(!equivalent(&cst("a. % hi"), "a. % hi", &cst("a. % bye"), "a. % bye"));
}

#[test]
fn roundtrip_preserves_step7_comments() {
    // Re-injecting comments must keep the output `≈` to the input at
    // every width — the token stream AND the comment-text sequence (modulo trailing
    // whitespace) both preserved. Covers leading / trailing / interior re-injection,
    // the source_file bottom anchor (comment-only file, post-final-statement), and
    // the still-degraded cases (a dangling comment inside a bracket — verbatim, also
    // `≈`). Each input is error-free, so a non-`Equivalent` here is a real defect.
    for src in [
        "a :- b. % trailing\n",
        "% leading\na :- b.\n",
        "% one\n% two\na.\n",
        "a :- b, % interior\nc.\n",
        "a :- %* inline *% b.\n",
        "%* multi\n  line *%\np.\n",
        "% lonely\n",
        "a.\n% tail\n",
        "a :- #count{ p; q\n% dangling\n}.\n",
        "p(a, b\n% after\n).\n",
        "a :- b\n% c\n.\n",
        "p(\n% only\n).\n",
        // Blank-line-detached comments at the top / middle of the file must keep
        // their source position (not relocate to the bottom and reorder past a
        // later comment — the detach-to-root-dangling reorder bug).
        "%d1\n\np. %t\n",
        "%d\n\np.\n%t2\nq.\n",
        "%a\n\n%b\np. %t\n",
        // Formerly imperfect-layout warts (a comment inside a flat operator / before a
        // separator): the structural lift now puts each leading comment on its own
        // line. Still `≈`, and now clean — see the goldens below.
        "p :- X = 1 + % c\n2.\n",
        "p(a % c\n, b).\n",
        // Transposition fix (sequence conjunct): an own-line comment between
        // an element and a FOLLOWING separator that carries a trailing comment must NOT
        // jump the separator (which reordered the pair → CommentMismatch). The `;`
        // aggregate-element list (the minimal repro) and the `,` rule body.
        "a :- #sum { x : p\n%bb\n; %aa\ny : q } >= 0.\n",
        "a :- p\n%bb\n, %aa\nq.\n",
        // Transposition fix — class extension to the whole "leading comment before
        // a following anonymous token" family: an own-line comment between an
        // element and a FOLLOWING connective neck (`:-`/`:~`/`:`), bracket opener
        // (`{`/`(`/`[`), infix (`=`/`@`), or disjunction-head `|` separator that
        // carries a trailing comment must NOT jump that token. The rule `:-`, the
        // conditional `:`, the aggregate `{` opener, the `#const` `=`, the weight `@`,
        // and the disjunction `|` (whose abs-delimiter twin keeps dangling — last case).
        "a\n%bb\n:- %aa\nb.\n",
        "p :- q\n%bb\n: %aa\nr.\n",
        ":- #count\n%bb\n{ %aa\nx : p } >= 1.\n",
        "#const c\n%bb\n= %aa\n5.\n",
        ":~ b. [2\n%bb\n@ %aa\n1]\n",
        // The disjunction-head `|` separator is a leading anchor too (the |-class
        // completion); its abs-delimiter twin is NOT — a comment before a closing abs
        // `|` dangles inside, never leading the bar (the carve-out, last case).
        "a\n%bb\n| %aa\nb.\n",
        "p(X)\n%bb\n| %aa\nq(X) :- r(X).\n",
        "a :- X = |Y\n% c\n|.\n",
        // Idempotence: the example.lp drift region — a neck comment
        // ABOVE a nested aggregate whose element-list comment drifted indent on reformat
        // (12 then 8). Coupled to the neck mis-attachment; fixed by the same change.
        "a\n%bb\n:- %aa\n#sum { x : p\n%dd\n; y : q } >= 0.\n",
    ] {
        for width in [1usize, 8, 100] {
            assert!(
                matches!(roundtrip_outcome(src, width), Outcome::Equivalent),
                "≈ violation at width {width}: {src:?}"
            );
        }
    }
}

#[test]
fn comment_before_separator_preserves_source_order() {
    // Sequence conjunct (transposition fix): an own-line comment that sits
    // between an element and a FOLLOWING `;`/`,` separator whose own line carries a
    // trailing comment must emit BEFORE that trailing comment — it must NOT jump the
    // separator to lead the next element (which reordered the pair, so `verify`
    // returned `CommentMismatch`). The `;` aggregate-element list (the minimal
    // repro) and the `,` rule body are both exercised, at every width.
    for src in [
        "a :- #sum { x : p\n%bb\n; %aa\ny : q } >= 0.\n", // `;` — minimal repro
        "a :- p\n%bb\n, %aa\nq.\n",                       // `,` body analogue
    ] {
        for w in [1usize, 8, 100] {
            assert_eq!(
                verify(src, &Style::default().with_line_width(w)),
                Ok(()),
                "comment source-order must round-trip ≈ @ width {w}: {src:?}"
            );
        }
    }
}

#[test]
fn comment_before_connective_neck_preserves_source_order() {
    // Sequence conjunct (transposition fix, class extension): an own-line
    // comment that sits between an element and a FOLLOWING connective NECK
    // (`:-` / `:~` / the conditional `:`) whose own line carries a trailing comment
    // must emit BEFORE that trailing comment — it must NOT jump the neck (which
    // reordered the pair, so `verify` returned `CommentMismatch`). The same class the
    // `,`/`;` separator fix closed, now at the neck tokens. Idempotence is asserted
    // separately by the adversarial net; here the load-bearing property is `≈`.
    for src in [
        "a\n%bb\n:- %aa\nb.\n",               // rule neck `:-`
        "p :- q\n%bb\n: %aa\nr.\n",           // conditional `:`
        ":~ p(X)\n%bb\n: %aa\nq(X). [1@2]\n", // conditional `:` inside a weak body
    ] {
        for w in [1usize, 8, 100] {
            assert_eq!(
                verify(src, &Style::default().with_line_width(w)),
                Ok(()),
                "comment source-order must round-trip ≈ @ width {w}: {src:?}"
            );
        }
    }
}

#[test]
fn flat_operator_trailing_comment_has_no_stray_leading_space() {
    assert_eq!(format_at_width("p :- X = 1 + % c\n2.\n", 80), "p :-\n    X = 1 + % c\n    2.\n");
}

const WIDTHS: [usize; 6] = [1, 2, 4, 8, 40, 100];

const CASES: &[&str] = &[
    // ---- dangling in function args / nesting ----
    "q :- p(a, b\n% d\n).\n",
    "q :- p(\n% only\n).\n",
    "q :- p(a\n% d1\n% d2\n).\n",
    "q :- p(a\n% d1\n\n% d2\n).\n",
    "q :- p(f(a\n% d\n)).\n",
    "q :- p(\n% lead\na, b).\n",
    // ---- argument pool ----
    "q :- p(a\n% d\n; b).\n",
    "q :- p(a; b\n% d\n).\n",
    // ---- tuple ----
    "p(X) :- X = (a, b\n% d\n).\n",
    "p(X) :- X = (a\n% d\n,).\n",
    "p(X) :- X = (a; b\n% d\n).\n",
    // ---- abs ----
    "p(X) :- X = |a\n% d\n|.\n",
    "p(X) :- X = |a\n% d\n; b|.\n",
    // ---- aggregates (#count/#sum/#min/#max) ----
    ":- #count{ X : p(X)\n% d\n} >= 1.\n",
    ":- #sum{ X : p(X)\n% d\n} >= 1.\n",
    ":- #min{ X : p(X)\n% d\n} >= 1.\n",
    ":- #max{ X : p(X)\n% d\n} >= 1.\n",
    // ---- choice / set aggregate ----
    "{ a; b\n% d\n} :- c.\n",
    "{ a; b\n% d\n}.\n",
    "{\n% only\n} :- c.\n",
    // ---- head aggregate ----
    "#count{ X : p(X)\n% d\n} >= 1 :- q.\n",
    // ---- minimize / maximize ----
    "#minimize{ C@1 : c(C)\n% d\n}.\n",
    "#maximize{ C@1 : c(C)\n% d\n}.\n",
    // ---- theory atom + theory brackets ----
    "&a{ x\n% d\n} :- b.\n",
    "&a{ x : y\n% d\n} :- b.\n",
    "&a{ f(x\n% d\n) } :- b.\n",
    "&a{ [x\n% d\n] } :- b.\n",
    "&a{ {x\n% d\n} } :- b.\n",
    "&a{ (x\n% d\n) } :- b.\n",
    // ---- #theory definition block ----
    "#theory t { d { - : 0, unary }\n% d\n }.\n",
    // ---- #edge ----
    "#edge (a, b\n% d\n).\n",
    "#edge (a, b; c, d\n% d\n).\n",
    "#edge (a, b\n% d\n; c, d).\n",
    // ---- #program ----
    "#program p(k, t\n% d\n).\n",
    // ---- bracket [..] tails: comments inside / before ----
    "#heuristic a. [3\n% d\n, true]\n",
    "#const n = 1. [default]\n% trail-after-stmt\n",
    // ---- before glued tails ----
    "a :- b\n% c\n.\n",
    ":~ p(X)\n% c\n. [1@2]\n",
    ":~ p(X). [1@2]\n% after\n",
    // ---- colon-body directive seams ----
    "#external p(X)\n% d\n : q(X).\n",
    "#show f(X)\n% d\n : p(X).\n",
    // ---- transposition class: own-line comment before a FOLLOWING anonymous token
    //      that carries a trailing comment (neck / opener / infix). Must preserve source
    //      order (≈) AND be idempotent at every width. The `,`/`;`
    //      separator case is covered above; these are the class extension.
    "a\n%bb\n:- %aa\nb.\n",                   // rule neck `:-`
    "p :- q\n%bb\n: %aa\nr.\n",               // conditional `:`
    ":- #count\n%bb\n{ %aa\nx : p } >= 1.\n", // aggregate `{` opener
    "p :- q(a\n%bb\n; %aa\nb).\n",            // pool `;` inside `(` (opener + sep)
    "#const c\n%bb\n= %aa\n5.\n",             // `#const` `=`
    ":~ b. [2\n%bb\n@ %aa\n1]\n",             // weight `@`
    // example.lp's nested-drift region: a neck comment above a nested
    // aggregate whose element-list comment drifted indent on reformat. Idempotent now.
    "a\n%bb\n:- %aa\n#sum { x : p\n%dd\n; y : q } >= 0.\n",
    // ---- trailing comment on inner tokens ----
    "a :- b, % t\nc.\n",
    "a :- b ; % t\nc.\n",
    "p(a % t\n, b).\n",
    "p(a, % t\nb).\n",
    // ---- doc_comment adjacent to trivia ----
    "%*! doc *%\n% trivia\np(1).\n",
    "% trivia\n%*! doc *%\np(1).\n",
    "p(1).\n%*! doc *%\n% after\nq(2).\n",
    // ---- special comment text ----
    "a :- b. % we use 100% of it.\n",
    "a :- b. %* note: has *% nested-ish\n",
    "a :- b. % \"quoted\" and : colon ; semi , comma .\n",
    "% ends-with-dot.\np.\n",
    "p. %\n",
    "p. %*x*%\n",
    // ---- leading run with blanks at top/mid/bottom ----
    "% h1\n% h2\np.\n",
    "%d1\n\np. %t\n",
    "%a\n\n%b\np. %t\n",
    "p.\n\n% tail-detached\n",
    // ---- multi-line block comment placements ----
    "%* multi\n  line *%\np.\n",
    "p(\n%* multi\n  line *%\na).\n",
    "a :- b. %* trailing\n  multi *%\n",
    // ---- comment-only / whitespace edges ----
    "% lonely\n",
    "%* block only *%\n",
    "\n\n% spaced\n\n\np.\n",
    // ---- blank lines × comments (≈ + idempotence stress) ----
    "a.\n\nb.\n",
    "a. % t\n\nb.\n",
    "a.\n\n% c\nb.\n",
    "a.\n\n\n#program p.\nb.\n",
    "a :- b,\n\n c,\n\n d.\n",
    ":- #count{ a;\n\n b } >= 0.\n",
    ":- #count{ a : p;\n\n% c\n b : q } >= 0.\n",
    "p(a;\n\n b % t\n).\n",
    // Blank fidelity around a separator + comment
    // (no-blank must NOT phantom; blank-before-separator must survive). All ≈ + idem.
    ":- a,\n% c\n b.\n",
    ":- a,\n\n% c\n b.\n",
    ":- #count{ a;\n% c\n b } >= 0.\n",
    "a;\n% c\n b :- d.\n",
    ":- aaaa\n\n, bbbb.\n",
];

#[test]
fn reinjection_is_equivalent_and_idempotent() {
    let mut viol: Vec<String> = Vec::new();
    let mut skipped: Vec<&str> = Vec::new();
    for &src in CASES {
        for w in WIDTHS {
            match roundtrip_outcome(src, w) {
                Outcome::NotEquivalent { formatted } => viol.push(format!(
                    "NOT-≈ @w={w}: {src:?}\n      ---out---\n{formatted}\n      ---end---"
                )),
                Outcome::InputHasError => {
                    if !skipped.contains(&src) {
                        skipped.push(src);
                    }
                }
                Outcome::Equivalent => {}
            }
        }
        if has_error(src) {
            continue;
        }
        for w in [40usize, 80] {
            let once = format_at_width(src, w);
            let twice = format_at_width(&once, w);
            if once != twice {
                viol.push(format!("NON-IDEMPOTENT @w={w}: {src:?}\n  once:\n{once}\n  twice:\n{twice}"));
            }
        }
    }
    if !skipped.is_empty() {
        println!("error-bearing input (totality only, `≈` not asserted):");
        for s in &skipped {
            println!("    {s:?}");
        }
    }
    assert!(
        viol.is_empty(),
        "\n==== {} adversarial violation(s) ====\n{}\n",
        viol.len(),
        viol.join("\n")
    );
}

#[test]
fn baked_separator_leading_comment_is_idempotent() {
    for src in ["#edge (a, b\n% d\n; c, d).\n", "#heuristic a. [3\n% d\n, true]\n"] {
        for w in [40usize, 80] {
            let once = format_at_width(src, w);
            let twice = format_at_width(&once, w);
            assert_eq!(once, twice, "idempotent @w={w}: {src:?}\n{once}");
        }
    }
}

#[test]
fn adversarial_error_input_is_total() {
    let errs: &[&str] = &[
        "a :- . % c\n",
        "p( % c\n",
        "p(a;;b\n% d\n).\n",
        "a :- b % c\n",
        "%* unterminated\np.\n",
        "&a{ % c\n",
        "#count{ % c\n",
        ":- #count{\n% only\n} >= 0.\n",
        "{\n% only\n}.\n",
        "}\n% c\n",
    ];
    for &src in errs {
        for w in WIDTHS {
            let _ = format_at_width(src, w);
        }
    }
}

#[test]
fn adversarial_crlf() {
    let cases: &[&str] = &[
        "a :- b.\r\n% c\r\nc :- d.\r\n",
        "% lead\r\np.\r\n",
        "a :- b. % trail\r\n",
        "p(a, b\r\n% d\r\n).\r\n",
    ];
    let mut viol: Vec<String> = Vec::new();
    for &src in cases {
        for w in WIDTHS {
            if let Outcome::NotEquivalent { formatted } = roundtrip_outcome(src, w) {
                viol.push(format!("NOT-≈ @w={w}: {src:?}\n---\n{formatted}\n---"));
            }
        }
    }
    assert!(viol.is_empty(), "\n{}\n", viol.join("\n"));
}

#[test]
fn equivalence_is_reflexive_symmetric_and_transitive_on_samples() {
    let samples = ["a :- b.", "a:-b.", "a  :-  b .", "a :- c.", "p(a,b).", "p(a;b).", "a. % hi", "a. % hi  "];
    for x in samples {
        assert!(equivalent(&cst(x), x, &cst(x), x), "reflexive on {x:?}");
        for y in samples {
            let xy = equivalent(&cst(x), x, &cst(y), y);
            assert_eq!(xy, equivalent(&cst(y), y, &cst(x), x), "symmetric on {x:?} / {y:?}");
            for z in samples {
                if xy && equivalent(&cst(y), y, &cst(z), z) {
                    assert!(equivalent(&cst(x), x, &cst(z), z), "transitive on {x:?} / {y:?} / {z:?}");
                }
            }
        }
    }
}

#[test]
fn verify_against_accepts_a_relayout_and_rejects_a_changed_token() {
    assert!(verify_against("a:-b,c.", "a :- b, c.\n").is_ok());
    assert!(matches!(verify_against("a:-b,c.", "a :- b, d.\n"), Err(Mismatch::Structure(_))));
    let m = verify_against("a:-b,c.", "a :- b, c. % note\n");
    assert!(matches!(m, Err(Mismatch::Comment(_))));
}
