use kallos::doc::arena::{DocNode, NodeId};
use kallos::doc::builder::{Doc, DocBuilder};
use kallos::doc::render::{render, render_with_stats};

#[test]
fn seq_of_leaves_concatenates_in_order() {
    let mut builder = DocBuilder::new();
    let src = "a b";
    let a = builder.leaf(0, "a");
    let sp = builder.line();
    let c = builder.leaf(2, "b");
    let s = builder.seq(&[a, sp, c]);
    let g = builder.group(s);
    let doc = builder.finish(g);
    assert_eq!(render(&doc, src, 80), "a b");
}

#[test]
fn group_flat_when_fits_uses_line_as_space() {
    let mut builder = DocBuilder::new();
    let src = "ab";
    let a = builder.leaf(0, "a");
    let l = builder.line();
    let c = builder.leaf(1, "b");
    let inner = builder.seq(&[a, l, c]);
    let g = builder.group(inner);
    let doc = builder.finish(g);
    assert_eq!(render(&doc, src, 80), "a b");
}

#[test]
fn empty_seq_is_nil_and_single_seq_is_the_element() {
    let mut builder = DocBuilder::new();
    let leaf = builder.leaf(0, "x");
    assert_eq!(builder.seq(&[leaf]), leaf);
    let empty = builder.seq(&[]);
    let doc = builder.finish(empty);
    assert_eq!(render(&doc, "x", 80), "");
}

#[test]
fn forced_break_is_false_without_a_hardline_or_verbatim() {
    let mut builder = DocBuilder::new();
    let a = builder.leaf(0, "a");
    let l = builder.line();
    let c = builder.leaf(1, "b");
    let inner = builder.seq(&[a, l, c]);
    let g = builder.group(inner);
    match builder.finish(g).node(g) {
        DocNode::Group { forced_break, .. } => assert!(!forced_break),
        other => panic!("expected a group, got {other:?}"),
    }
}

#[test]
fn a_hardline_forces_its_enclosing_group() {
    let mut builder = DocBuilder::new();
    let h = builder.hardline();
    let g = builder.group(h);
    match builder.finish(g).node(g) {
        DocNode::Group { forced_break, .. } => assert!(forced_break),
        other => panic!("expected a group, got {other:?}"),
    }
}

#[test]
fn a_verbatim_forces_its_enclosing_group() {
    let mut builder = DocBuilder::new();
    let v = builder.verbatim(0, "X\nY");
    let g = builder.group(v);
    match builder.finish(g).node(g) {
        DocNode::Group { forced_break, .. } => assert!(forced_break),
        other => panic!("expected a group, got {other:?}"),
    }
}

#[test]
fn forced_break_propagates_through_a_nested_group() {
    let mut builder = DocBuilder::new();
    let h = builder.hardline();
    let inner = builder.group(h);
    let x = builder.leaf(0, "x");
    let s = builder.seq(&[x, inner]);
    let outer = builder.group(s);
    match builder.finish(outer).node(outer) {
        DocNode::Group { forced_break, .. } => {
            assert!(forced_break, "a forced break in a nested group must propagate");
        }
        other => panic!("expected a group, got {other:?}"),
    }
}

#[test]
fn building_a_group_over_a_deep_chain_is_stack_safe() {
    const DEEP_CHAIN: usize = 100_000;
    let mut builder = DocBuilder::new();
    let src = "a+";
    let mut node = builder.leaf(0, "a");
    for _ in 0..DEEP_CHAIN {
        let op = builder.leaf(1, "+");
        let a = builder.leaf(0, "a");
        node = builder.seq(&[node, op, a]);
    }
    let g = builder.group(node);
    let out = render(&builder.finish(g), src, 80);
    assert_eq!(out.len(), 1 + 2 * DEEP_CHAIN);
    assert!(out.starts_with("a+a"));
}

fn one_line(src: &str, build: impl FnOnce(&mut DocBuilder) -> NodeId, w: usize) -> String {
    let mut builder = DocBuilder::new();
    let root = build(&mut builder);
    render(&builder.finish(root), src, w)
}

#[test]
fn group_breaks_when_it_overflows() {
    let src = "aaaaBBBB";
    let out = one_line(
        src,
        |builder| {
            let a = builder.leaf(0, "aaaa");
            let l = builder.line();
            let bb = builder.leaf(4, "BBBB");
            let inner = builder.seq(&[a, l, bb]);
            builder.group(inner)
        },
        5,
    );
    assert_eq!(out, "aaaa\nBBBB");
}

#[test]
fn fits_invoked_at_most_once_per_group() {
    const GROUPS: usize = 8;
    let src = "wwwwwwwwww";
    let mut builder = DocBuilder::new();
    let mut current = {
        let a = builder.leaf(0, "wwwww");
        let l = builder.line();
        let c = builder.leaf(0, "wwwww");
        let s = builder.seq(&[a, l, c]);
        builder.group(s)
    };
    for _ in 1..GROUPS {
        let l = builder.line();
        let extra = builder.leaf(0, "wwwww");
        let s = builder.seq(&[current, l, extra]);
        current = builder.group(s);
    }
    let doc = builder.finish(current);
    let calls = render_with_stats(&doc, src, 3).1.fits_calls;
    assert_eq!(
        calls, GROUPS,
        "fits must be invoked exactly once per group entered in break context"
    );
}

#[test]
fn a_space_stranded_at_the_start_of_a_broken_line_is_dropped() {
    let mut bd = DocBuilder::new();
    let a = bd.leaf(0, "a");
    let h = bd.hardline();
    let sp = bd.space();
    let b = bd.leaf(1, "b");
    let s = bd.seq(&[a, h, sp, b]);
    assert_eq!(render(&bd.finish(s), "ab", 80), "a\nb");
}

#[test]
fn blank_line_is_a_blank_when_broken_nothing_when_flat() {
    let build = |width| {
        let mut bd = DocBuilder::new();
        let a = bd.leaf(0, "a");
        let gap = bd.line();
        let bl = bd.blank_line();
        let b = bd.leaf(1, "b");
        let body = bd.seq(&[a, gap, bl, b]);
        let grp = bd.group(body);
        render(&bd.finish(grp), "ab", width)
    };
    assert_eq!(build(80), "a b");
    assert_eq!(build(1), "a\n\nb");
}

#[test]
fn leading_break_is_dropped_and_trailing_ws_trimmed_before_a_break() {
    let mut bd = DocBuilder::new();
    let h0 = bd.hardline();
    let a = bd.leaf(0, "a");
    let sp = bd.space();
    let h1 = bd.hardline();
    let b = bd.leaf(1, "b");
    let s = bd.seq(&[h0, a, sp, h1, b]);
    assert_eq!(render(&bd.finish(s), "ab", 80), "a\nb");
}

fn wide_doc(n: usize) -> (Doc, String) {
    let mut b = DocBuilder::new();
    let src = "a ".repeat(n);
    let mut items = Vec::with_capacity(n * 2);
    for i in 0..n {
        let leaf = b.leaf(u32::try_from(i * 2).expect("offset fits u32"), "a");
        items.push(leaf);
        let line = b.line();
        items.push(line);
    }
    let seq = b.seq(&items);
    let group = b.group(seq);
    (b.finish(group), src)
}

fn many_groups(m: usize) -> (Doc, String) {
    let mut b = DocBuilder::new();
    let src = "a a".to_string();
    let mut items = Vec::with_capacity(m * 2);
    for i in 0..m {
        let head = b.leaf(0, "a");
        let gap = b.line();
        let tail = b.leaf(2, "a");
        let inner = b.seq(&[head, gap, tail]);
        items.push(b.group(inner));
        if i + 1 < m {
            items.push(b.hardline());
        }
    }
    let seq = b.seq(&items);
    (b.finish(seq), src)
}

#[test]
fn worklist_steps_are_width_invariant() {
    let (doc, src) = wide_doc(200);
    let counts: Vec<usize> = [1usize, 20, 100, 1000, usize::MAX]
        .iter()
        .map(|&w| render_with_stats(&doc, &src, w).1.worklist_steps)
        .collect();
    assert!(counts.windows(2).all(|w| w[0] == w[1]), "worklist_steps vary by width: {counts:?}");
    assert_eq!(counts[0], 402);
}

#[test]
fn worklist_steps_are_linear_in_size() {
    let (d1, s1) = wide_doc(500);
    let (d2, s2) = wide_doc(1000);
    let c1 = render_with_stats(&d1, &s1, 100).1.worklist_steps;
    let c2 = render_with_stats(&d2, &s2, 100).1.worklist_steps;
    assert!(
        c2 * 10 >= c1 * 18 && c2 * 10 <= c1 * 22,
        "worklist_steps non-linear: {c1}->{c2}"
    );
}

#[test]
fn fits_chars_are_bounded_linear_at_every_width() {
    const K: usize = 3;
    let n = 1000usize;
    let (doc, src) = wide_doc(n);
    for &w in &[1usize, 20, 100, 1000, usize::MAX] {
        let fits_chars = render_with_stats(&doc, &src, w).1.fits_chars;
        assert!(fits_chars <= K * n, "fits_chars={fits_chars} exceeds {K}*n at width {w}");
    }
}

#[test]
fn fits_chars_stay_linear_across_many_groups_at_unbounded_width() {
    let (doc, src) = many_groups(1000);
    let bounded = render_with_stats(&doc, &src, 100).1.fits_chars;
    let unbounded = render_with_stats(&doc, &src, usize::MAX).1.fits_chars;
    assert_eq!(bounded, unbounded);
    let (d1, s1) = many_groups(500);
    let (d2, s2) = many_groups(1000);
    let c1 = render_with_stats(&d1, &s1, usize::MAX).1.fits_chars;
    let c2 = render_with_stats(&d2, &s2, usize::MAX).1.fits_chars;
    assert!(c2 * 10 >= c1 * 18 && c2 * 10 <= c1 * 22, "{c1}->{c2}");
}

#[test]
fn nest_indents_broken_lines_relatively() {
    let out = one_line(
        "aaaaBBBB",
        |builder| {
            let a = builder.leaf(0, "aaaa");
            let l = builder.line();
            let bb = builder.leaf(4, "BBBB");
            let inner = builder.seq(&[a, l, bb]);
            let nested = builder.nest(2, inner);
            builder.group(nested)
        },
        5,
    );
    assert_eq!(out, "aaaa\n  BBBB");
}

#[test]
fn softline_is_nothing_when_flat_newline_when_broken() {
    let build = |w| {
        one_line(
            "ab",
            |builder| {
                let a = builder.leaf(0, "a");
                let s = builder.softline();
                let c = builder.leaf(1, "b");
                let inner = builder.seq(&[a, s, c]);
                builder.group(inner)
            },
            w,
        )
    };
    assert_eq!(build(80), "ab");
    assert_eq!(build(1), "a\nb");
}

#[test]
fn hardline_forces_the_enclosing_group_broken() {
    let out = one_line(
        "ab",
        |builder| {
            let a = builder.leaf(0, "a");
            let h = builder.hardline();
            let c = builder.leaf(1, "b");
            let inner = builder.seq(&[a, h, c]);
            builder.group(inner)
        },
        80,
    );
    assert_eq!(out, "a\nb");
}

#[test]
fn group_stays_flat_when_its_continuation_begins_with_a_hardline() {
    let out = one_line(
        "abc",
        |builder| {
            let a = builder.leaf(0, "a");
            let gap = builder.line();
            let b = builder.leaf(1, "b");
            let inner = builder.seq(&[a, gap, b]);
            let grp = builder.group(inner);
            let brk = builder.hardline();
            let c = builder.leaf(2, "c");
            builder.seq(&[grp, brk, c])
        },
        80,
    );
    assert_eq!(out, "a b\nc");
}

#[test]
fn verbatim_keeps_internal_newlines_literal_no_reindent() {
    let out = one_line(
        "X\nY",
        |builder| {
            let v = builder.verbatim(0, "X\nY");
            builder.nest(4, v)
        },
        80,
    );
    assert_eq!(out, "X\nY");
}

#[test]
fn space_stays_a_blank_when_the_group_is_forced_broken() {
    let out = one_line(
        "abc",
        |builder| {
            let a = builder.leaf(0, "a");
            let sp = builder.space();
            let b = builder.leaf(1, "b");
            let h = builder.hardline();
            let c = builder.leaf(2, "c");
            let inner = builder.seq(&[a, sp, b, h, c]);
            builder.group(inner)
        },
        80,
    );
    assert_eq!(out, "a b\nc");
}

#[test]
fn space_counts_one_column_in_the_fit_decision() {
    let out = one_line(
        "abcc",
        |builder| {
            let a = builder.leaf(0, "a");
            let sp = builder.space();
            let b = builder.leaf(1, "b");
            let l = builder.line();
            let cc = builder.leaf(2, "cc");
            let inner = builder.seq(&[a, sp, b, l, cc]);
            builder.group(inner)
        },
        3,
    );
    assert_eq!(out, "a b\ncc");
}

#[test]
fn consecutive_breaks_coalesce_to_one_newline() {
    let out = one_line(
        "ab",
        |builder| {
            let a = builder.leaf(0, "a");
            let h1 = builder.hardline();
            let h2 = builder.hardline();
            let b = builder.leaf(1, "b");
            builder.seq(&[a, h1, h2, b])
        },
        80,
    );
    assert_eq!(out, "a\nb");
}

#[test]
fn coalesced_breaks_adopt_the_last_indent() {
    let out = one_line(
        "ab",
        |builder| {
            let a = builder.leaf(0, "a");
            let deep = builder.hardline();
            let deep_nested = builder.nest(4, deep);
            let shallow = builder.hardline();
            let b = builder.leaf(1, "b");
            builder.seq(&[a, deep_nested, shallow, b])
        },
        80,
    );
    assert_eq!(out, "a\nb");
}

#[test]
fn space_is_a_blank_when_flat() {
    let out = one_line(
        "ab",
        |builder| {
            let a = builder.leaf(0, "a");
            let sp = builder.space();
            let b = builder.leaf(1, "b");
            let inner = builder.seq(&[a, sp, b]);
            builder.group(inner)
        },
        80,
    );
    assert_eq!(out, "a b");
}

#[test]
fn space_does_not_itself_force_a_break() {
    // A group whose only gaps are a space and a line stays flat when it fits.
    let out = one_line(
        "abc",
        |builder| {
            let a = builder.leaf(0, "a");
            let sp = builder.space();
            let b = builder.leaf(1, "b");
            let l = builder.line();
            let c = builder.leaf(2, "c");
            let inner = builder.seq(&[a, sp, b, l, c]);
            builder.group(inner)
        },
        80,
    );
    assert_eq!(out, "a b c");
}

#[test]
fn a_trailing_break_emits_no_newline_or_whitespace() {
    // A break with no following content is dropped: no trailing newline or indent.
    let out = one_line(
        "a",
        |builder| {
            let a = builder.leaf(0, "a");
            let h = builder.hardline();
            builder.seq(&[a, h])
        },
        80,
    );
    assert_eq!(out, "a");
}

#[test]
fn docnode_is_copy_and_small() {
    // `Copy` keeps the arena flat; the size guard catches accidental bloat.
    fn assert_copy<T: Copy>() {}
    assert_copy::<DocNode>();
    assert!(std::mem::size_of::<DocNode>() <= 24, "DocNode must stay compact for cache density");
}
