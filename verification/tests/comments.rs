//! Comment attachment: every trivia comment lands on exactly one anchor, in one
//! of the leading / trailing / dangling slots.

use kallos::comments::{attach, Attachments, Trivia};
use kallos::cst::{clingo_kind_id, read_source, Cst, KindIds};

#[derive(Clone, Copy)]
enum Slot {
    Leading,
    Trailing,
    Dangling,
}

fn model(src: &str) -> (Cst, Attachments) {
    let cst = read_source(src).expect("the grammar parses any string");
    let at = attach(&cst, src);
    (cst, at)
}

/// The first node of kind `kind` in the model's node order.
fn find_first(cst: &Cst, kind: u16) -> usize {
    cst.nodes.iter().position(|n| n.kind == kind).expect("a node of that kind")
}

fn slot<'a>(at: &'a Attachments, id: usize, s: Slot) -> &'a Vec<Trivia> {
    let ac = at.for_node(id);
    match s {
        Slot::Leading => &ac.leading,
        Slot::Trailing => &ac.trailing,
        Slot::Dangling => &ac.dangling,
    }
}

/// The source text of the comment at `(id, slot, idx)`.
fn text_of<'a>(at: &Attachments, id: usize, s: Slot, idx: usize, src: &'a str) -> &'a str {
    let t = &slot(at, id, s)[idx];
    &src[t.start..t.end]
}

#[test]
fn trailing_comment_attaches_to_preceding_node_on_same_line() {
    let src = "a :- b.  % note\n";
    let (cst, at) = model(src);
    let rule = find_first(&cst, KindIds::new().rule);
    assert_eq!(at.for_node(rule).trailing.len(), 1);
    assert_eq!(text_of(&at, rule, Slot::Trailing, 0, src), "% note");
    assert!(at.for_node(rule).leading.is_empty());
    assert_eq!(at.total_attached(), 1);
}

#[test]
fn leading_comment_attaches_to_following_sibling() {
    let src = "% header\na :- b.\n";
    let (cst, at) = model(src);
    let rule = find_first(&cst, KindIds::new().rule);
    assert_eq!(at.for_node(rule).leading.len(), 1);
    assert_eq!(text_of(&at, rule, Slot::Leading, 0, src), "% header");
    assert_eq!(at.total_attached(), 1);
}

#[test]
fn comment_only_file_dangles_on_root() {
    let src = "% lonely\n";
    let (_cst, at) = model(src);
    assert_eq!(at.for_node(0).dangling.len(), 1);
    assert_eq!(text_of(&at, 0, Slot::Dangling, 0, src), "% lonely");
    assert_eq!(at.total_attached(), 1);
}

#[test]
fn every_comment_is_attached_exactly_once_totality() {
    // `% a` `% b` lead the rule; `% c` trails it; `% d` dangles on the root.
    let (_cst, at) = model("% a\n% b\np.  % c\n% d\n");
    assert_eq!(at.total_attached(), 4);
}

#[test]
fn totality_holds_with_comments_before_every_following_token_class() {
    // A comment before each following-token class, a trailing comment on it, a
    // dangling-inside case before `}`, and the abs closing-bar carve-out: every
    // comment lands in exactly one slot.
    for (src, n) in [
        ("a\n%b\n:- %t\nx.\n", 2),
        ("a :- p\n%b\n: %t\nq.\n", 2),
        (":- #count\n%b\n{ %t\nx : p } >= 1.\n", 2),
        ("a :- p\n%b\n; %t\nq.\n", 2),
        ("#const c\n%b\n= %t\n5.\n", 2),
        (":~ b. [2\n%b\n@ %t\n1]\n", 2),
        ("a :- #count{ x : p\n%d\n}.\n", 1),
        ("p :- q = |a\n%d\n; b|.\n", 1),
        ("p :- q = |a; b\n%d\n|.\n", 1),
    ] {
        let (_cst, at) = model(src);
        assert_eq!(at.total_attached(), n, "every comment attached exactly once: {src:?}");
    }
}

#[test]
fn trailing_wins_over_leading_across_one_sweep() {
    let src = "p.  % c\n% d\n";
    let (cst, at) = model(src);
    let rule = find_first(&cst, KindIds::new().rule);
    assert_eq!(at.for_node(rule).trailing.len(), 1);
    assert_eq!(text_of(&at, rule, Slot::Trailing, 0, src), "% c");
    assert_eq!(at.for_node(0).dangling.len(), 1);
    assert_eq!(text_of(&at, 0, Slot::Dangling, 0, src), "% d");
    assert_eq!(at.total_attached(), 2);
}

#[test]
fn blank_line_detaches_leading_comment_to_dangling() {
    let src = "% detached\n\np.\n";
    let (cst, at) = model(src);
    let rule = find_first(&cst, KindIds::new().rule);
    assert!(at.for_node(rule).leading.is_empty());
    assert_eq!(at.for_node(0).dangling.len(), 1);
    assert_eq!(text_of(&at, 0, Slot::Dangling, 0, src), "% detached");
    assert_eq!(at.total_attached(), 1);
}

#[test]
fn multiple_leading_comments_share_one_anchor() {
    let src = "% one\n% two\nfoo :- bar.\n";
    let (cst, at) = model(src);
    let rule = find_first(&cst, KindIds::new().rule);
    assert_eq!(at.for_node(rule).leading.len(), 2);
    assert_eq!(text_of(&at, rule, Slot::Leading, 0, src), "% one");
    assert_eq!(text_of(&at, rule, Slot::Leading, 1, src), "% two");
    assert_eq!(at.total_attached(), 2);
}

#[test]
fn two_leading_blocks_split_on_the_blank() {
    let src = "% a\n% b\n\n% c\n% d\np.\n";
    let (cst, at) = model(src);
    let rule = find_first(&cst, KindIds::new().rule);
    assert_eq!(at.for_node(rule).leading.len(), 2);
    assert_eq!(at.for_node(0).dangling.len(), 2);
    assert_eq!(text_of(&at, rule, Slot::Leading, 0, src), "% c");
    assert_eq!(text_of(&at, rule, Slot::Leading, 1, src), "% d");
    assert_eq!(text_of(&at, 0, Slot::Dangling, 0, src), "% a");
    assert_eq!(text_of(&at, 0, Slot::Dangling, 1, src), "% b");
    assert_eq!(at.total_attached(), 4);
}

#[test]
fn multiline_block_comment_sets_multiline_flag() {
    let (cst, at) = model("%* line1\nline2 *%\np.\n");
    let rule = find_first(&cst, KindIds::new().rule);
    let ac = at.for_node(rule);
    assert_eq!(ac.leading.len(), 1);
    assert!(ac.leading[0].multiline);
    assert_eq!(at.total_attached(), 1);
}

#[test]
fn single_line_comment_is_not_multiline() {
    let (cst, at) = model("% just one line\np.\n");
    let rule = find_first(&cst, KindIds::new().rule);
    assert!(!at.for_node(rule).leading[0].multiline);
}

#[test]
fn comment_after_last_item_in_block_dangles_on_enclosing() {
    let src = "c :- #count{ X : p(X)\n  % after last\n}.\n";
    let (cst, at) = model(src);
    let agg = find_first(&cst, KindIds::new().body_aggregate);
    assert_eq!(at.for_node(agg).dangling.len(), 1);
    assert_eq!(text_of(&at, agg, Slot::Dangling, 0, src), "% after last");
    assert_eq!(at.total_attached(), 1);
}

#[test]
fn inline_block_between_code_classifies_as_trailing() {
    let (cst, at) = model("a :- %* note *% b.\n");
    let neck = find_first(&cst, clingo_kind_id(":-", false));
    let ac = at.for_node(neck);
    assert_eq!(ac.trailing.len(), 1);
    assert!(!ac.trailing[0].multiline);
    assert_eq!(at.total_attached(), 1);
}

#[test]
fn doc_comment_is_not_trivia_and_is_not_attached() {
    let (_cst, at) = model("%*! p/1 a predicate *%\np(1).\n");
    assert_eq!(at.total_attached(), 0);
}

#[test]
fn attach_does_not_overflow_on_deeply_nested_input() {
    // The pass walks the flat model with loops, so depth costs no stack.
    let n = 3000;
    let src = format!("p({}0{}).\n", "f(".repeat(n), ")".repeat(n));
    let (_cst, at) = model(&src);
    assert_eq!(at.total_attached(), 0);
}
