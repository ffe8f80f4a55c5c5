//! Emitter pieces driven on hand-built inputs: the text path, comment docs, the
//! bracket-depth rule, and the generic assembler.

use kallos::comments::{attach, Trivia};
use kallos::cst::{clingo_field_id, read_source, Cst, FieldIds, KindIds};
use kallos::doc::builder::DocBuilder;
use kallos::doc::render::render;
use kallos::emit::assemble::{assemble, classify, OpenerKind, Pad, Part, Role, Spine};
use kallos::emit::child_depth;
use kallos::emit::reinject::comment_doc;
use kallos::emit::spacing::Sep;
use kallos::emit::token::token;
use kallos::emit::Ctx;
use kallos::Style;

fn model(src: &str) -> Cst {
    read_source(src).expect("the grammar parses any string")
}

/// Run `f` with an emitter context over `src`.
fn with_ctx<T>(src: &str, f: impl FnOnce(&Ctx) -> T) -> T {
    let cst = model(src);
    let kinds = KindIds::new();
    let fields = FieldIds::new();
    let at = attach(&cst, src);
    let style = Style::default();
    let ctx = Ctx { src, bytes: src.as_bytes(), cst: &cst, kinds: &kinds, fields: &fields, at: &at, style: &style };
    f(&ctx)
}

#[test]
fn token_emits_verbatim_source_slice_no_normalization() {
    // `#minimise` must survive byte-exact, never normalized to `#minimize`.
    let src = "#minimise{}.\n";
    let out = with_ctx(src, |ctx| {
        let kw = (0..ctx.cst.nodes.len())
            .find(|&i| {
                let n = ctx.cst.nodes[i];
                n.count == 0 && &src[n.start..n.end] == "#minimise"
            })
            .expect("the #minimise keyword leaf");
        let mut b = DocBuilder::new();
        let id = token(ctx, kw, &mut b);
        render(&b.finish(id), src, 80)
    });
    assert_eq!(out, "#minimise");
}

#[test]
fn token_routes_newline_bearing_slice_to_verbatim() {
    // A multi-line block comment is a verbatim span: byte-exact, no re-indent.
    let src = "%* multi\nline *%\n";
    let out = with_ctx(src, |ctx| {
        let bc = ctx
            .cst
            .nodes
            .iter()
            .position(|n| n.kind == ctx.kinds.block_comment)
            .expect("a block_comment node");
        let mut b = DocBuilder::new();
        let id = token(ctx, bc, &mut b);
        render(&b.finish(id), src, 80)
    });
    assert_eq!(out, "%* multi\nline *%");
}

#[test]
fn comment_doc_emits_a_trailing_ws_stripped_single_line() {
    let src = "% note   ";
    let out = with_ctx(src, |ctx| {
        let mut b = DocBuilder::new();
        let node = comment_doc(ctx, Trivia { start: 0, end: 9, multiline: false }, &mut b);
        render(&b.finish(node), src, 80)
    });
    assert_eq!(out, "% note");
}

#[test]
fn comment_doc_keeps_a_multiline_block_byte_exact() {
    let src = "%* a\n  b *%";
    let out = with_ctx(src, |ctx| {
        let mut b = DocBuilder::new();
        let node = comment_doc(ctx, Trivia { start: 0, end: src.len(), multiline: true }, &mut b);
        render(&b.finish(node), src, 80)
    });
    assert_eq!(out, "%* a\n  b *%");
}

#[test]
fn child_depth_enters_brackets_on_elements_and_arguments_fields() {
    // The aggregate brace list (`elements`) and an argument list (`arguments`)
    // count one bracket deeper; other fields stay at the parent depth. The root
    // is no tuple / abs / theory bracket, so only the field rule fires.
    with_ctx("a.\n", |ctx| {
        assert_eq!(child_depth(ctx, 0, clingo_field_id("elements"), 0, 0), 1);
        assert_eq!(child_depth(ctx, 0, clingo_field_id("arguments"), 0, 2), 3);
        assert_eq!(child_depth(ctx, 0, clingo_field_id("left"), 0, 0), 0);
        assert_eq!(child_depth(ctx, 0, clingo_field_id("name"), 0, 1), 1);
        assert_eq!(child_depth(ctx, 0, 0, 0, 1), 1);
    });
}

/// Leaf parts cut from a backing source, assembled and rendered in isolation
/// from real lowering.
struct Harness {
    builder: DocBuilder,
    src: String,
}

impl Harness {
    fn new() -> Self {
        Self { builder: DocBuilder::new(), src: String::new() }
    }

    /// A leaf part with `role`, appending `text` to the backing source.
    fn part(&mut self, role: Role, text: &str) -> Part {
        let start = u32::try_from(self.src.len()).expect("test source fits in u32");
        self.src.push_str(text);
        let doc = self.builder.leaf(start, text);
        Part { role, doc }
    }

    /// Assemble `parts` (no fusing neck/tail seam) and render at `width`.
    fn render(self, parts: &[Part], indent: i32, neck_width: i32, width: usize) -> String {
        self.render_seam(parts, indent, neck_width, width, false)
    }

    /// Assemble with an explicit neck/tail seam flag, then render.
    fn render_seam(self, parts: &[Part], indent: i32, neck_width: i32, width: usize, fuses: bool) -> String {
        let Harness { mut builder, src } = self;
        let root = with_ctx(&src, |ctx| assemble(ctx, &mut builder, parts, indent, neck_width, fuses));
        render(&builder.finish(root), &src, width)
    }
}

#[test]
fn assembler_headed_rule_body_drops_at_indent_4() {
    let mut h = Harness::new();
    let parts = vec![
        h.part(Role::Element, "reachable(X, Y)"),
        h.part(Role::Opener(OpenerKind::Connective), ":-"),
        h.part(Role::Element, "edge(X, Z)"),
        h.part(Role::Separator(Sep::Spaced), ","),
        h.part(Role::Element, "reachable(Z, Y)"),
        h.part(Role::Tail, "."),
    ];
    assert_eq!(h.render(&parts, 4, 3, 20), "reachable(X, Y) :-\n    edge(X, Z),\n    reachable(Z, Y).");
}

#[test]
fn assembler_headed_rule_stays_flat_when_it_fits() {
    let mut h = Harness::new();
    let parts = vec![
        h.part(Role::Element, "reachable(X, Y)"),
        h.part(Role::Opener(OpenerKind::Connective), ":-"),
        h.part(Role::Element, "edge(X, Z)"),
        h.part(Role::Separator(Sep::Spaced), ","),
        h.part(Role::Element, "reachable(Z, Y)"),
        h.part(Role::Tail, "."),
    ];
    assert_eq!(h.render(&parts, 4, 3, 100), "reachable(X, Y) :- edge(X, Z), reachable(Z, Y).");
}

#[test]
fn assembler_constraint_neck_leads_first_element_rides_hang_3() {
    let mut h = Harness::new();
    let parts = vec![
        h.part(Role::Opener(OpenerKind::Connective), ":-"),
        h.part(Role::Element, "assign(T, S1)"),
        h.part(Role::Separator(Sep::Spaced), ","),
        h.part(Role::Element, "assign(T, S2)"),
        h.part(Role::Separator(Sep::Spaced), ","),
        h.part(Role::Element, "S1 < S2"),
        h.part(Role::Tail, "."),
    ];
    assert_eq!(h.render(&parts, 4, 3, 20), ":- assign(T, S1),\n   assign(T, S2),\n   S1 < S2.");
}

#[test]
fn assembler_constraint_stays_flat_when_it_fits() {
    let mut h = Harness::new();
    let parts = vec![
        h.part(Role::Opener(OpenerKind::Connective), ":-"),
        h.part(Role::Element, "assign(T, S1)"),
        h.part(Role::Separator(Sep::Spaced), ","),
        h.part(Role::Element, "S1 < S2"),
        h.part(Role::Tail, "."),
    ];
    assert_eq!(h.render(&parts, 4, 3, 100), ":- assign(T, S1), S1 < S2.");
}

#[test]
fn assembler_tight_bracket_explodes_with_a_dedented_closer() {
    let mut h = Harness::new();
    let parts = vec![
        h.part(Role::Element, "f"),
        h.part(Role::Opener(OpenerKind::Bracket(Pad::Tight)), "("),
        h.part(Role::Element, "alpha"),
        h.part(Role::Separator(Sep::Spaced), ","),
        h.part(Role::Element, "beta"),
        h.part(Role::Closer, ")"),
    ];
    assert_eq!(h.render(&parts, 4, 3, 6), "f(\n    alpha,\n    beta\n)");
}

#[test]
fn assembler_tight_bracket_hugs_its_interior_when_flat() {
    let mut h = Harness::new();
    let parts = vec![
        h.part(Role::Element, "f"),
        h.part(Role::Opener(OpenerKind::Bracket(Pad::Tight)), "("),
        h.part(Role::Element, "a"),
        h.part(Role::Separator(Sep::Spaced), ","),
        h.part(Role::Element, "b"),
        h.part(Role::Closer, ")"),
    ];
    assert_eq!(h.render(&parts, 4, 3, 80), "f(a, b)");
}

#[test]
fn assembler_spaced_bracket_pads_its_interior_when_flat() {
    let mut h = Harness::new();
    let parts = vec![
        h.part(Role::Element, "#count"),
        h.part(Role::Opener(OpenerKind::Bracket(Pad::Spaced)), "{"),
        h.part(Role::Element, "a"),
        h.part(Role::Separator(Sep::Spaced), ";"),
        h.part(Role::Element, "b"),
        h.part(Role::Closer, "}"),
    ];
    assert_eq!(h.render(&parts, 4, 3, 80), "#count{ a; b }");
}

#[test]
fn assembler_spaced_bracket_explodes_with_a_dedented_closer() {
    let mut h = Harness::new();
    let parts = vec![
        h.part(Role::Element, "#count"),
        h.part(Role::Opener(OpenerKind::Bracket(Pad::Spaced)), "{"),
        h.part(Role::Element, "alpha"),
        h.part(Role::Separator(Sep::Spaced), ";"),
        h.part(Role::Element, "beta"),
        h.part(Role::Closer, "}"),
    ];
    assert_eq!(h.render(&parts, 4, 3, 8), "#count{\n    alpha;\n    beta\n}");
}

#[test]
fn assembler_empty_bracket_has_no_interior_pad() {
    for (pad, open, close, want) in [(Pad::Tight, "(", ")", "f()"), (Pad::Spaced, "{", "}", "f{}")] {
        let mut h = Harness::new();
        let parts = vec![
            h.part(Role::Element, "f"),
            h.part(Role::Opener(OpenerKind::Bracket(pad)), open),
            h.part(Role::Closer, close),
        ];
        assert_eq!(h.render(&parts, 4, 3, 80), want);
    }
}

#[test]
fn classify_dispatches_the_four_shapes() {
    let mut b = DocBuilder::new();
    let mut mk = |role| Part { role, doc: b.nil() };
    let leading = [mk(Role::Opener(OpenerKind::Connective)), mk(Role::Element)];
    assert!(matches!(classify(&leading), Spine::LeadingNeck { .. }));
    let trailing = [mk(Role::Element), mk(Role::Opener(OpenerKind::Connective)), mk(Role::Element)];
    assert!(matches!(classify(&trailing), Spine::TrailingNeck { .. }));
    let bracket = [
        mk(Role::Element),
        mk(Role::Opener(OpenerKind::Bracket(Pad::Spaced))),
        mk(Role::Element),
        mk(Role::Closer),
    ];
    assert!(matches!(classify(&bracket), Spine::Bracketed { closer: Some(_), .. }));
    let plain = [mk(Role::Element), mk(Role::Separator(Sep::Spaced)), mk(Role::Element)];
    assert!(matches!(classify(&plain), Spine::Separated));
    assert!(matches!(classify(&[]), Spine::Separated));
}

#[test]
fn tight_separator_is_a_softline_no_flat_pad_but_breaks() {
    let mut h = Harness::new();
    let parts = vec![
        h.part(Role::Element, "f"),
        h.part(Role::Opener(OpenerKind::Bracket(Pad::Tight)), "("),
        h.part(Role::Element, "a"),
        h.part(Role::Separator(Sep::Tight), ","),
        h.part(Role::Element, "b"),
        h.part(Role::Closer, ")"),
    ];
    assert_eq!(h.render(&parts, 4, 3, 80), "f(a,b)");
    let mut h = Harness::new();
    let parts = vec![
        h.part(Role::Element, "f"),
        h.part(Role::Opener(OpenerKind::Bracket(Pad::Tight)), "("),
        h.part(Role::Element, "alpha"),
        h.part(Role::Separator(Sep::Tight), ","),
        h.part(Role::Element, "beta"),
        h.part(Role::Closer, ")"),
    ];
    assert_eq!(h.render(&parts, 4, 3, 6), "f(\n    alpha,\n    beta\n)");
}

#[test]
fn empty_body_trailing_neck_self_heals_a_fusing_seam() {
    // An empty-body `:` neck whose tail begins with `-` would fuse to `:-`; a
    // space is interposed iff the construct reports that the seam fuses.
    let mut h = Harness::new();
    let parts = vec![
        h.part(Role::Element, "p"),
        h.part(Role::Opener(OpenerKind::Connective), ":"),
        h.part(Role::Tail, "-q"),
    ];
    assert_eq!(h.render_seam(&parts, 4, 3, 80, true), "p : -q");
    let mut h = Harness::new();
    let parts = vec![
        h.part(Role::Element, "p"),
        h.part(Role::Opener(OpenerKind::Connective), ":"),
        h.part(Role::Tail, "."),
    ];
    assert_eq!(h.render_seam(&parts, 4, 3, 80, false), "p :.");
}

/// Every role, openers included, for spines built without any well-formedness
/// constraint.
const ROLES: [Role; 8] = [
    Role::Element,
    Role::Closer,
    Role::Separator(Sep::Spaced),
    Role::Separator(Sep::Tight),
    Role::Tail,
    Role::Opener(OpenerKind::Connective),
    Role::Opener(OpenerKind::Bracket(Pad::Spaced)),
    Role::Opener(OpenerKind::Bracket(Pad::Tight)),
];

/// Assemble a spine of `(role, text)` parts and check, at several widths and
/// both seam flags, that removing whitespace from the output leaves exactly the
/// parts' texts in order.
fn check_only_whitespace_is_interposed(spec: &[(Role, String)]) {
    let concatenated: String = spec.iter().map(|(_, t)| t.as_str()).collect();
    for width in [1usize, 4, 16, 80, 100_000] {
        for fuses in [false, true] {
            let mut h = Harness::new();
            let parts: Vec<Part> = spec.iter().map(|(role, text)| h.part(*role, text)).collect();
            let out = h.render_seam(&parts, 4, 3, width, fuses);
            let stripped: String = out.chars().filter(|c| !c.is_whitespace()).collect();
            assert_eq!(stripped, concatenated, "width {width}, seam {fuses}: {spec:?}");
        }
    }
}

#[test]
fn assembled_spines_only_interpose_whitespace_exhaustively_up_to_three_parts() {
    let mut specs: Vec<Vec<(Role, String)>> = vec![Vec::new()];
    for len in 1..=3usize {
        let mut next = Vec::new();
        for s in specs.iter().filter(|s| s.len() == len - 1) {
            for (k, r) in ROLES.iter().enumerate() {
                let mut t = s.clone();
                t.push((*r, format!("p{len}{k}")));
                next.push(t);
            }
        }
        specs.extend(next);
    }
    assert_eq!(specs.len(), 1 + 8 + 64 + 512);
    for s in &specs {
        check_only_whitespace_is_interposed(s);
    }
}

#[test]
fn assembled_spines_only_interpose_whitespace_on_longer_sampled_spines() {
    // A fixed linear congruential sequence picks roles and lengths, so the
    // sample is the same on every run.
    let mut state: u64 = 0x2545_f491_4f6c_dd1d;
    let mut next = || {
        state = state.wrapping_mul(6_364_136_223_846_793_005).wrapping_add(1_442_695_040_888_963_407);
        (state >> 33) as usize
    };
    for _ in 0..300 {
        let len = 4 + next() % 9;
        let spec: Vec<(Role, String)> =
            (0..len).map(|i| (ROLES[next() % ROLES.len()], format!("t{i}x{}", next() % 100))).collect();
        check_only_whitespace_is_interposed(&spec);
    }
}
