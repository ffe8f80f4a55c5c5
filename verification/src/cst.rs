//! The concrete-syntax-tree layer: parsing with the clingo grammar, and the
//! flat tree model the formatter works on.
//!
//! A tree-sitter tree is opaque to the verifier, so the library reads it once
//! into a [`Cst`]: every node (named and anonymous) numbered in breadth-first
//! order, each carrying its kind id, its field label within its parent, its
//! error flags, its byte span and rows, and the contiguous index range of its
//! children. Breadth-first numbering makes every child range lie strictly above
//! its parent and the child ranges of successive nodes tile `1..len`, so each
//! node but the root has exactly one parent.

use crate::text::string_from_utf8;
use vstd::prelude::*;

verus! {

#[verifier::external_type_specification]
#[verifier::external_body]
pub struct ExTree(tree_sitter::Tree);

/// The id the clingo grammar assigns to the node kind `name` (named or
/// anonymous); `0` when the grammar has no such kind.
pub uninterp spec fn clingo_kind_id_spec(name: Seq<char>, named: bool) -> u16;

/// The id the clingo grammar assigns to the field label `name`; `0` when the
/// grammar has no such field.
pub uninterp spec fn clingo_field_id_spec(name: Seq<char>) -> u16;

/// `tree_sitter::Language::id_for_node_kind` on the vendored clingo grammar
/// (`tree_sitter_clingo::LANGUAGE`). The grammar is fixed, so the id is a
/// function of the kind name and the named flag alone.
#[verifier::external_body]
pub fn clingo_kind_id(name: &str, named: bool) -> (id: u16)
    ensures
        id == clingo_kind_id_spec(name@, named),
{
    let lang: tree_sitter::Language = tree_sitter_clingo::LANGUAGE.into();
    lang.id_for_node_kind(name, named)
}

/// `tree_sitter::Language::field_id_for_name` on the vendored clingo grammar,
/// with "no such field" as `0`. A function of the field name alone.
#[verifier::external_body]
pub fn clingo_field_id(name: &str) -> (id: u16)
    ensures
        id == clingo_field_id_spec(name@),
{
    let lang: tree_sitter::Language = tree_sitter_clingo::LANGUAGE.into();
    match lang.field_id_for_name(name) {
        Some(f) => f.get(),
        None => 0,
    }
}

/// The name the clingo grammar gives the kind id `id`; `None` when the grammar
/// has no kind with that id.
pub uninterp spec fn clingo_kind_name_spec(id: u16) -> Option<Seq<char>>;

/// The name the clingo grammar gives the field id `id`; `None` when the grammar
/// has no field with that id (as for `0`).
pub uninterp spec fn clingo_field_name_spec(id: u16) -> Option<Seq<char>>;

/// `tree_sitter::Language::node_kind_for_id` on the vendored clingo grammar,
/// owned. The grammar is fixed, so the name is a function of the id alone.
#[verifier::external_body]
pub fn clingo_kind_name(id: u16) -> (r: Option<String>)
    ensures
        match r {
            Some(s) => clingo_kind_name_spec(id) == Some(s@),
            None => clingo_kind_name_spec(id) is None,
        },
{
    let lang: tree_sitter::Language = tree_sitter_clingo::LANGUAGE.into();
    match lang.node_kind_for_id(id) {
        Some(name) => Some(name.to_owned()),
        None => None,
    }
}

/// `tree_sitter::Language::field_name_for_id` on the vendored clingo grammar,
/// owned. A function of the field id alone.
#[verifier::external_body]
pub fn clingo_field_name(id: u16) -> (r: Option<String>)
    ensures
        match r {
            Some(s) => clingo_field_name_spec(id) == Some(s@),
            None => clingo_field_name_spec(id) is None,
        },
{
    let lang: tree_sitter::Language = tree_sitter_clingo::LANGUAGE.into();
    match lang.field_name_for_id(id) {
        Some(name) => Some(name.to_owned()),
        None => None,
    }
}

/// Whether the root of tree-sitter's parse of `src` with the clingo grammar
/// carries `ERROR` / `MISSING` nodes; `None` when the parser declines.
pub uninterp spec fn clingo_root_error_spec(src: Seq<char>) -> Option<bool>;

/// `tree_sitter::Parser::parse` of `src` with the vendored clingo grammar (a
/// fresh parser, no previous tree), with `Node::has_error` of the root. With no
/// timeout and no cancellation, tree-sitter's parse is a function of the
/// grammar and the text, so whether it succeeds and the root's error flag are
/// named as functions of the source; the tree itself stays opaque.
#[verifier::external_body]
fn clingo_parse(src: &str) -> (r: Option<(tree_sitter::Tree, bool)>)
    ensures
        match r {
            Some(p) => clingo_root_error_spec(src@) == Some(p.1),
            None => clingo_root_error_spec(src@) is None,
        },
{
    let mut parser = tree_sitter::Parser::new();
    if parser.set_language(&tree_sitter_clingo::LANGUAGE.into()).is_err() {
        return None;
    }
    match parser.parse(src, None) {
        Some(tree) => {
            let e = tree.root_node().has_error();
            Some((tree, e))
        },
        None => None,
    }
}

/// A source whose parse carries `ERROR` / `MISSING` nodes, or that the parser
/// declines.
pub open spec fn source_has_error(src: Seq<char>) -> bool {
    match clingo_root_error_spec(src) {
        Some(b) => b,
        None => true,
    }
}

/// Parse ASP/clingo source with the vendored grammar. tree-sitter is
/// error-tolerant: invalid input comes back as `ERROR` / `MISSING` nodes inside
/// the tree. `None` only if the grammar does not load or the parser declines,
/// neither of which happens for the vendored grammar on `&str` input.
pub fn parse(src: &str) -> (t: Option<tree_sitter::Tree>)
    ensures
        t is Some <==> clingo_root_error_spec(src@) is Some,
{
    match clingo_parse(src) {
        Some(p) => Some(p.0),
        None => None,
    }
}

/// Does this source's parse contain `ERROR` (or `MISSING`) nodes? Mirrors
/// tree-sitter's `Node::has_error` on the root. A source the parser declines
/// counts as erroneous.
pub fn has_error(src: &str) -> (r: bool)
    ensures
        r == source_has_error(src@),
{
    match clingo_parse(src) {
        Some(p) => p.1,
        None => true,
    }
}

/// One node of the flat tree model.
#[derive(Clone, Copy, Debug, PartialEq, Eq, Structural)]
pub struct CstNode {
    /// The grammar's kind id.
    pub kind: u16,
    /// The grammar's field id for this node within its parent (`0`: none).
    pub field: u16,
    /// A named node (as opposed to an anonymous token).
    pub named: bool,
    /// An `ERROR` node.
    pub error: bool,
    /// A `MISSING` node.
    pub missing: bool,
    /// This node or a descendant is `ERROR` / `MISSING`.
    pub has_error: bool,
    /// Byte span `[start, end)` in the source.
    pub start: usize,
    pub end: usize,
    /// Source rows of the first and last byte.
    pub start_row: usize,
    pub end_row: usize,
    /// The children are the nodes `first .. first + count`.
    pub first: usize,
    pub count: usize,
}

/// The flat model of a parse tree: nodes in breadth-first order, root first.
pub struct Cst {
    pub nodes: Vec<CstNode>,
}

/// Well-formed tree layout over a node sequence: a root, child ranges above
/// their parents, and successive child ranges tiling `1..len`.
pub open spec fn layout_wf(ns: Seq<CstNode>) -> bool {
    &&& ns.len() >= 1
    &&& ns[0].first == 1
    &&& forall|k: int| 0 <= k < ns.len() ==> #[trigger] ns[k].first > k
    &&& forall|k: int| 0 <= k < ns.len() - 1 ==> #[trigger] ns[k + 1].first == ns[k].first + ns[k].count
    &&& ns[ns.len() - 1].first + ns[ns.len() - 1].count == ns.len()
}

/// The `j`-th child index of node `k`.
pub open spec fn child_of(ns: Seq<CstNode>, k: int, j: int) -> int {
    ns[k].first + j
}

/// Every child range lies inside the node sequence.
pub proof fn lemma_children_in_bounds(ns: Seq<CstNode>, k: int)
    requires
        layout_wf(ns),
        0 <= k < ns.len(),
    ensures
        k < ns[k].first,
        ns[k].first + ns[k].count <= ns.len(),
    decreases ns.len() - k,
{
    if k < ns.len() - 1 {
        assert(ns[k + 1].first == ns[k].first + ns[k].count);
        lemma_children_in_bounds(ns, k + 1);
    }
}

impl Cst {
    /// The model is a well-formed tree.
    pub open spec fn wf(&self) -> bool {
        layout_wf(self.nodes@)
    }

    /// The number of nodes.
    pub fn len(&self) -> (n: usize)
        ensures
            n == self.nodes@.len(),
    {
        self.nodes.len()
    }

    /// Node `i`.
    pub fn node(&self, i: usize) -> (n: CstNode)
        requires
            i < self.nodes@.len(),
        ensures
            n == self.nodes@[i as int],
    {
        self.nodes[i]
    }

    /// Node `i`'s children, each with its field id, in source order.
    pub fn walk_children(&self, i: usize) -> (r: Vec<(u16, usize)>)
        requires
            self.wf(),
            i < self.nodes@.len(),
        ensures
            r@.len() == self.nodes@[i as int].count,
            forall|j: int| 0 <= j < r@.len() ==> i < (#[trigger] r@[j]).1 < self.nodes@.len(),
            forall|j: int|
                0 <= j < r@.len() ==> #[trigger] r@[j] == (
                    self.nodes@[child_of(self.nodes@, i as int, j)].field,
                    child_of(self.nodes@, i as int, j) as usize,
                ),
    {
        proof {
            lemma_children_in_bounds(self.nodes@, i as int);
        }
        let n = self.nodes[i];
        let mut r: Vec<(u16, usize)> = Vec::new();
        let mut j: usize = 0;
        while j < n.count
            invariant
                self.wf(),
                n == self.nodes@[i as int],
                n.first + n.count <= self.nodes@.len(),
                j <= n.count,
                r@.len() == j,
                forall|q: int|
                    0 <= q < j ==> #[trigger] r@[q] == (
                        self.nodes@[child_of(self.nodes@, i as int, q)].field,
                        child_of(self.nodes@, i as int, q) as usize,
                    ),
            decreases n.count - j,
        {
            let c = n.first + j;
            r.push((self.nodes[c].field, c));
            j = j + 1;
        }
        r
    }
}

/// A node is a leaf iff it has no children; true of an anonymous token and of a
/// named terminal alike.
pub fn is_leaf(cst: &Cst, i: usize) -> (r: bool)
    requires
        i < cst.nodes@.len(),
    ensures
        r == (cst.nodes@[i as int].count == 0),
{
    cst.nodes[i].count == 0
}

/// One node of tree-sitter's parse as tree-sitter reports it, in preorder
/// (a node, then its children's subtrees in order): its kind id, its field id
/// within its parent (`0`: none), its flags, byte span and rows, its number of
/// children and the size of its subtree (itself included).
#[derive(Clone, Copy, Debug, PartialEq, Eq, Structural)]
pub struct RawNode {
    pub kind: u16,
    pub field: u16,
    pub named: bool,
    pub error: bool,
    pub missing: bool,
    pub has_error: bool,
    pub start: usize,
    pub end: usize,
    pub start_row: usize,
    pub end_row: usize,
    pub count: usize,
    pub size: usize,
}

/// A reported node as tree-sitter hands it out: kind id, field id, named,
/// `ERROR`, `MISSING`, has-error, start and end byte, start and end row, child
/// count, descendant count.
pub type RawTuple = (u16, u16, bool, bool, bool, bool, usize, usize, usize, usize, u32, usize);

/// Every node of tree-sitter's parse of `src` with the clingo grammar, in
/// preorder; `None` when the parser declines.
pub uninterp spec fn clingo_preorder_spec(src: Seq<char>) -> Option<Seq<RawTuple>>;

/// `tree_sitter::Parser::parse` of `src` with the vendored clingo grammar, read
/// node by node with `TreeCursor::goto_descendant` over the root's
/// `descendant_count` (tree-sitter's descendant order is preorder), each node's
/// field id read off the cursor (`0`: none). A parse with no previous tree,
/// timeout or cancellation is a function of the text, so the nodes are named as
/// one; the same parse gives the root error flag.
#[verifier::external_body]
fn clingo_preorder(src: &str) -> (r: Option<Vec<RawTuple>>)
    ensures
        match r {
            Some(v) => clingo_preorder_spec(src@) == Some(v@),
            None => clingo_preorder_spec(src@) is None,
        },
        r is Some <==> clingo_root_error_spec(src@) is Some,
        r matches Some(v) ==> v@.len() > 0 && clingo_root_error_spec(src@) == Some(v@[0].5),
{
    let mut parser = tree_sitter::Parser::new();
    parser.set_language(&tree_sitter_clingo::LANGUAGE.into()).ok()?;
    let tree = parser.parse(src, None)?;
    let mut cur = tree.walk();
    let mut out = Vec::new();
    for k in 0..tree.root_node().descendant_count() {
        cur.goto_descendant(k);
        let n = cur.node();
        out.push((n.kind_id(), cur.field_id().map_or(0, u16::from), n.is_named(), n.is_error(), n.is_missing(), n.has_error(), n.start_byte(), n.end_byte(), n.start_position().row, n.end_position().row, n.child_count(), n.descendant_count()));
    }
    Some(out)
}

/// A reported node as a record.
pub open spec fn raw_node(t: RawTuple) -> RawNode {
    RawNode {
        kind: t.0,
        field: t.1,
        named: t.2,
        error: t.3,
        missing: t.4,
        has_error: t.5,
        start: t.6,
        end: t.7,
        start_row: t.8,
        end_row: t.9,
        count: t.10 as usize,
        size: t.11,
    }
}

/// The reported nodes as records.
pub open spec fn raw_nodes(ts: Seq<RawTuple>) -> Seq<RawNode> {
    ts.map_values(|t: RawTuple| raw_node(t))
}

/// A reported node as a record.
fn make_raw(t: RawTuple) -> (r: RawNode)
    ensures
        r == raw_node(t),
{
    RawNode {
        kind: t.0,
        field: t.1,
        named: t.2,
        error: t.3,
        missing: t.4,
        has_error: t.5,
        start: t.6,
        end: t.7,
        start_row: t.8,
        end_row: t.9,
        count: t.10 as usize,
        size: t.11,
    }
}

/// The preorder index of the `j`-th child of the node at preorder index `p`:
/// the first child follows its parent, each next child follows the previous
/// child's subtree.
pub open spec fn pre_child(raw: Seq<RawNode>, p: int, j: int) -> int
    decreases j,
{
    if j <= 0 {
        p + 1
    } else {
        let q = pre_child(raw, p, j - 1);
        q + raw[q].size
    }
}

/// The model node for a reported node whose children start at `first`.
pub open spec fn node_of(r: RawNode, first: usize) -> CstNode {
    CstNode {
        kind: r.kind,
        field: r.field,
        named: r.named,
        error: r.error,
        missing: r.missing,
        has_error: r.has_error,
        start: r.start,
        end: r.end,
        start_row: r.start_row,
        end_row: r.end_row,
        first,
        count: r.count,
    }
}

/// `ns` is the tree reported in preorder by `raw`, laid out breadth first, with
/// `h` sending each model node to its preorder index: the root first, every
/// node carrying its reported fields, and the children of each node the
/// reported children in order.
pub open spec fn bfs_of(raw: Seq<RawNode>, h: Seq<usize>, ns: Seq<CstNode>) -> bool {
    &&& layout_wf(ns)
    &&& h.len() == ns.len()
    &&& h[0] == 0
    &&& forall|k: int| 0 <= k < ns.len() ==> #[trigger] h[k] < raw.len() && ns[k] == node_of(raw[h[k] as int], ns[k].first)
    &&& forall|k: int, j: int|
        0 <= k < ns.len() && 0 <= j < ns[k].count ==> h[ns[k].first + j] == #[trigger] pre_child(raw, h[k] as int, j)
}

/// `ns` is a breadth-first model of `raw` that a `Vec` can index.
pub open spec fn has_bfs(raw: Seq<RawNode>, ns: Seq<CstNode>) -> bool {
    &&& exists|h: Seq<usize>| bfs_of(raw, h, ns)
    &&& ns.len() < usize::MAX
}

/// The reported nodes form a tree that has a breadth-first model.
pub open spec fn has_model(raw: Seq<RawNode>) -> bool {
    exists|ns: Seq<CstNode>| has_bfs(raw, ns)
}

/// The breadth-first model of the reported nodes (there is at most one).
pub open spec fn model_of(raw: Seq<RawNode>) -> Seq<CstNode> {
    choose|ns: Seq<CstNode>| has_bfs(raw, ns)
}

/// The flat model of the parse of `src`: its nodes breadth first; `None` when
/// the parser declines (or reports no tree).
pub open spec fn source_cst(src: Seq<char>) -> Option<Seq<CstNode>> {
    match clingo_preorder_spec(src) {
        Some(ts) => if has_model(raw_nodes(ts)) {
            Some(model_of(raw_nodes(ts)))
        } else {
            None
        },
        None => None,
    }
}

/// The model node of a reported node whose children start at `first`.
fn make_node(r: RawNode, first: usize) -> (n: CstNode)
    ensures
        n == node_of(r, first),
{
    CstNode {
        kind: r.kind,
        field: r.field,
        named: r.named,
        error: r.error,
        missing: r.missing,
        has_error: r.has_error,
        start: r.start,
        end: r.end,
        start_row: r.start_row,
        end_row: r.end_row,
        first,
        count: r.count,
    }
}

/// In a breadth-first layout under construction, the children of an earlier
/// node lie below the next free index.
proof fn lemma_bfs_prefix_bound(ns: Seq<CstNode>, k: int, i: int, next: int)
    requires
        0 <= k < i == ns.len(),
        forall|q: int| 0 <= q < i - 1 ==> #[trigger] ns[q + 1].first == ns[q].first + ns[q].count,
        ns[i - 1].first + ns[i - 1].count == next,
    ensures
        ns[k].first + ns[k].count <= next,
    decreases i - k,
{
    if k < i - 1 {
        assert(ns[k + 1].first == ns[k].first + ns[k].count);
        lemma_bfs_prefix_bound(ns, k + 1, i, next);
    }
}

/// Parse `src` and read the tree into the flat model, breadth first: exactly
/// [`source_cst`], `None` when the parser declines.
pub fn read_source(src: &str) -> (r: Option<Cst>)
    ensures
        match r {
            Some(c) => source_cst(src@) == Some(c.nodes@) && c.wf(),
            None => source_cst(src@) is None,
        },
{
    let tuples = match clingo_preorder(src) {
        Some(v) => v,
        None => {
            return None;
        },
    };
    let mut raw: Vec<RawNode> = Vec::new();
    let mut t: usize = 0;
    while t < tuples.len()
        invariant
            t <= tuples@.len(),
            raw@ == raw_nodes(tuples@).subrange(0, t as int),
        decreases tuples@.len() - t,
    {
        raw.push(make_raw(tuples[t]));
        t = t + 1;
        assert(raw@ =~= raw_nodes(tuples@).subrange(0, t as int));
    }
    assert(raw@ =~= raw_nodes(tuples@));
    let ghost rs = raw@;
    let ghost modeled = has_model(rs);
    let ghost mns = model_of(rs);
    let ghost mh = choose|h: Seq<usize>| bfs_of(rs, h, mns);
    proof {
        if modeled {
            assert(has_bfs(rs, mns));
            assert(bfs_of(rs, mh, mns));
        }
    }
    let mut handles: Vec<usize> = Vec::new();
    handles.push(0);
    let mut nodes: Vec<CstNode> = Vec::new();
    let mut i: usize = 0;
    while i < handles.len()
        invariant
            raw@ == rs,
            clingo_preorder_spec(src@) == Some(tuples@),
            rs == raw_nodes(tuples@),
            rs.len() > 0,
            modeled == has_model(rs),
            modeled ==> bfs_of(rs, mh, mns) && mns.len() < usize::MAX,
            handles@.len() >= 1,
            handles@.len() < usize::MAX,
            handles@[0] == 0,
            forall|k: int| 0 <= k < handles@.len() ==> #[trigger] handles@[k] < rs.len(),
            nodes@.len() == i,
            i <= handles@.len(),
            i > 0 ==> nodes@[0].first == 1,
            forall|k: int| 0 <= k < i ==> #[trigger] nodes@[k].first > k,
            forall|k: int| 0 <= k < i - 1 ==> #[trigger] nodes@[k + 1].first == nodes@[k].first + nodes@[k].count,
            i > 0 ==> nodes@[i - 1].first + nodes@[i - 1].count == handles@.len(),
            i == 0 ==> handles@.len() == 1,
            forall|k: int| 0 <= k < i ==> #[trigger] nodes@[k] == node_of(rs[handles@[k] as int], nodes@[k].first),
            forall|k: int, j: int|
                0 <= k < i && 0 <= j < nodes@[k].count ==> handles@[nodes@[k].first + j] == #[trigger] pre_child(
                    rs,
                    handles@[k] as int,
                    j,
                ),
            modeled ==> handles@.len() <= mns.len(),
            modeled ==> forall|k: int| 0 <= k < handles@.len() ==> #[trigger] handles@[k] == mh[k],
            modeled ==> forall|k: int| 0 <= k < i ==> #[trigger] nodes@[k] == mns[k],
        decreases usize::MAX - handles@.len(), handles@.len() - i,
    {
        let p = handles[i];
        let r = raw[p];
        let first = handles.len();
        proof {
            if modeled {
                assert(handles@[i as int] == mh[i as int]);
                assert(mns[i as int] == node_of(rs[mh[i as int] as int], mns[i as int].first));
                if i > 0 {
                    let k = i - 1;
                    assert(mns[k + 1].first == mns[k].first + mns[k].count);
                    assert(nodes@[k] == mns[k]);
                }
                lemma_children_in_bounds(mns, i as int);
            }
        }
        assert(modeled ==> mns[i as int].first == first && mns[i as int].count == r.count);
        assert(modeled ==> first + r.count <= mns.len());
        if r.count >= usize::MAX - first {
            return None;
        }
        let ghost h0 = handles@;
        assert(p < raw@.len());
        let nraw = raw.len();
        let mut q: usize = p + 1;
        let mut j: usize = 0;
        while j < r.count
            invariant
                clingo_preorder_spec(src@) == Some(tuples@),
            rs == raw_nodes(tuples@),
                modeled == has_model(rs),
                h0.len() == first,
                forall|k: int| 0 <= k < first ==> #[trigger] handles@[k] == h0[k],
                raw@ == rs,
                rs.len() > 0,
                p < rs.len(),
                r == rs[p as int],
                first + r.count < usize::MAX,
                handles@.len() == first + j,
                j <= r.count,
                j == 0 ==> q == p + 1,
                i < first,
                handles@[i as int] == p,
                handles@[0] == 0,
                forall|k: int| 0 <= k < handles@.len() ==> #[trigger] handles@[k] < rs.len(),
                forall|t: int| 0 <= t < j ==> handles@[first + t] == #[trigger] pre_child(rs, p as int, t),
                modeled ==> bfs_of(rs, mh, mns) && mns.len() < usize::MAX,
                modeled ==> mns[i as int].first == first && mns[i as int].count == r.count,
                modeled ==> first + r.count <= mns.len(),
                modeled ==> forall|k: int| 0 <= k < handles@.len() ==> #[trigger] handles@[k] == mh[k],
                modeled ==> mh[i as int] == p,
            decreases r.count - j,
        {
            if j > 0 {
                assert(handles@[first + (j - 1)] == pre_child(rs, p as int, j - 1));
                let prev = handles[first + j - 1];
                let s = raw[prev].size;
                if s > usize::MAX - prev {
                    proof {
                        if modeled {
                            assert(pre_child(rs, p as int, j as int) == mh[mns[i as int].first + j]);
                        }
                    }
                    return None;
                }
                q = prev + s;
            }
            assert(q == pre_child(rs, p as int, j as int));
            proof {
                if modeled {
                    assert(mh[mns[i as int].first + j] == pre_child(rs, mh[i as int] as int, j as int));
                    assert(mh[mns[i as int].first + j] < rs.len());
                }
            }
            if q >= raw.len() {
                return None;
            }
            handles.push(q);
            j = j + 1;
        }
        let ghost n0 = nodes@;
        let node = make_node(r, first);
        nodes.push(node);
        proof {
            assert forall|k: int, t: int| 0 <= k < i + 1 && 0 <= t < nodes@[k].count implies handles@[nodes@[k].first
                + t] == #[trigger] pre_child(rs, handles@[k] as int, t) by {
                if k < i {
                    assert(nodes@[k] == n0[k]);
                    assert(h0[n0[k].first + t] == pre_child(rs, h0[k] as int, t));
                    lemma_bfs_prefix_bound(n0, k, i as int, first as int);
                } else {
                    assert(nodes@[k] == node);
                }
            }
        }
        i = i + 1;
    }
    let c = Cst { nodes };
    proof {
        let ns = c.nodes@;
        let h = handles@;
        assert(layout_wf(ns));
        assert(bfs_of(rs, h, ns));
        assert(has_bfs(rs, ns));
        assert(modeled);
        if ns.len() < mns.len() {
            let k = ns.len() - 1;
            assert(mns[k + 1].first == mns[k].first + mns[k].count);
            assert(ns[k] == mns[k]);
        }
        assert(ns =~= mns);
        assert(clingo_preorder_spec(src@) == Some(tuples@));
        assert(has_model(rs));
        assert(source_cst(src@) == Some(mns));
        assert(c.wf());
    }
    Some(c)
}

/// Cached `u16` kind ids for the constructs the emitter and the comment pass
/// dispatch on, resolved once from the grammar (an unknown name resolves to 0).
pub struct KindIds {
    pub source_file: u16,
    pub rule: u16,
    pub integrity_constraint: u16,
    pub weak_constraint: u16,
    pub minimize: u16,
    pub maximize: u16,
    pub show: u16,
    pub show_term: u16,
    pub show_signature: u16,
    pub defined: u16,
    pub edge: u16,
    pub heuristic: u16,
    pub project_signature: u16,
    pub project_atom: u16,
    pub const_: u16,
    pub script: u16,
    /// The file-inclusion directive (its kind name is spelled from bytes below).
    pub inclusion: u16,
    pub program: u16,
    pub external: u16,
    pub theory: u16,
    pub body: u16,
    pub body_literal: u16,
    pub disjunction: u16,
    pub set_aggregate: u16,
    pub body_aggregate: u16,
    pub head_aggregate: u16,
    pub theory_atom: u16,
    pub lower: u16,
    pub upper: u16,
    pub set_aggregate_elements: u16,
    pub head_aggregate_elements: u16,
    pub body_aggregate_elements: u16,
    pub theory_elements: u16,
    pub optimize_elements: u16,
    pub set_aggregate_element: u16,
    pub body_aggregate_element: u16,
    pub head_aggregate_element: u16,
    pub optimize_element: u16,
    pub conditional_literal: u16,
    pub condition: u16,
    pub comparison: u16,
    pub relation: u16,
    pub function: u16,
    pub external_function: u16,
    pub binary_operation: u16,
    pub unary_operation: u16,
    pub abs: u16,
    pub tuple: u16,
    pub theory_function: u16,
    pub theory_tuple: u16,
    pub theory_list: u16,
    pub theory_set: u16,
    pub theory_unparsed_term: u16,
    pub theory_terms: u16,
    pub theory_operators: u16,
    pub theory_element: u16,
    pub theory_atom_upper: u16,
    pub theory_operator_definition: u16,
    pub theory_operator_definitions: u16,
    pub theory_term_definition: u16,
    pub theory_atom_definition: u16,
    pub signature: u16,
    pub weight: u16,
    pub parameters: u16,
    pub edge_pair: u16,
    pub literal: u16,
    pub symbolic_atom: u16,
    pub terms: u16,
    pub lone_comma: u16,
    pub empty_pool_item: u16,
    pub identifier: u16,
    pub variable: u16,
    pub number: u16,
    pub block_comment: u16,
    pub line_comment: u16,
    pub code: u16,
    pub dot: u16,
    pub neck: u16,
    pub weak_neck: u16,
    pub colon: u16,
    pub lbrace: u16,
    pub rbrace: u16,
    pub pipe: u16,
    pub lparen: u16,
    pub rparen: u16,
    pub semicolon: u16,
    pub comma: u16,
    pub lbracket: u16,
    pub rbracket: u16,
    pub equals: u16,
}

/// The UTF-8 bytes of the kind name of the file-inclusion directive.
pub open spec fn inclusion_name_bytes() -> Seq<u8> {
    seq![105u8, 110u8, 99u8, 108u8, 117u8, 100u8, 101u8]
}

/// The kind id of the file-inclusion directive, looked up by its name.
fn inclusion_kind_id() -> (id: u16)
    ensures
        vstd::utf8::valid_utf8(inclusion_name_bytes()) ==> id == clingo_kind_id_spec(
            vstd::utf8::decode_utf8(inclusion_name_bytes()),
            true,
        ),
{
    let bytes: Vec<u8> = vec![105u8, 110u8, 99u8, 108u8, 117u8, 100u8, 101u8];
    assert(bytes@ == inclusion_name_bytes());
    match string_from_utf8(bytes) {
        Some(name) => {
            proof {
                vstd::utf8::encode_utf8_decode_utf8(name@);
            }
            clingo_kind_id(name.as_str(), true)
        },
        None => 0,
    }
}

impl KindIds {
    /// Resolve every kind id from the vendored grammar.
    pub fn new() -> (k: Self)
        ensures
            k.source_file == clingo_kind_id_spec("source_file"@, true),
            k.rule == clingo_kind_id_spec("rule"@, true),
            k.integrity_constraint == clingo_kind_id_spec("integrity_constraint"@, true),
            k.weak_constraint == clingo_kind_id_spec("weak_constraint"@, true),
            k.minimize == clingo_kind_id_spec("minimize"@, true),
            k.maximize == clingo_kind_id_spec("maximize"@, true),
            k.show == clingo_kind_id_spec("show"@, true),
            k.show_term == clingo_kind_id_spec("show_term"@, true),
            k.show_signature == clingo_kind_id_spec("show_signature"@, true),
            k.defined == clingo_kind_id_spec("defined"@, true),
            k.edge == clingo_kind_id_spec("edge"@, true),
            k.heuristic == clingo_kind_id_spec("heuristic"@, true),
            k.project_signature == clingo_kind_id_spec("project_signature"@, true),
            k.project_atom == clingo_kind_id_spec("project_atom"@, true),
            k.const_ == clingo_kind_id_spec("const"@, true),
            k.script == clingo_kind_id_spec("script"@, true),
            vstd::utf8::valid_utf8(inclusion_name_bytes()) ==> k.inclusion == clingo_kind_id_spec(
                vstd::utf8::decode_utf8(inclusion_name_bytes()),
                true,
            ),
            k.program == clingo_kind_id_spec("program"@, true),
            k.external == clingo_kind_id_spec("external"@, true),
            k.theory == clingo_kind_id_spec("theory"@, true),
            k.body == clingo_kind_id_spec("body"@, true),
            k.body_literal == clingo_kind_id_spec("body_literal"@, true),
            k.disjunction == clingo_kind_id_spec("disjunction"@, true),
            k.set_aggregate == clingo_kind_id_spec("set_aggregate"@, true),
            k.body_aggregate == clingo_kind_id_spec("body_aggregate"@, true),
            k.head_aggregate == clingo_kind_id_spec("head_aggregate"@, true),
            k.theory_atom == clingo_kind_id_spec("theory_atom"@, true),
            k.lower == clingo_kind_id_spec("lower"@, true),
            k.upper == clingo_kind_id_spec("upper"@, true),
            k.set_aggregate_elements == clingo_kind_id_spec("set_aggregate_elements"@, true),
            k.head_aggregate_elements == clingo_kind_id_spec("head_aggregate_elements"@, true),
            k.body_aggregate_elements == clingo_kind_id_spec("body_aggregate_elements"@, true),
            k.theory_elements == clingo_kind_id_spec("theory_elements"@, true),
            k.optimize_elements == clingo_kind_id_spec("optimize_elements"@, true),
            k.set_aggregate_element == clingo_kind_id_spec("set_aggregate_element"@, true),
            k.body_aggregate_element == clingo_kind_id_spec("body_aggregate_element"@, true),
            k.head_aggregate_element == clingo_kind_id_spec("head_aggregate_element"@, true),
            k.optimize_element == clingo_kind_id_spec("optimize_element"@, true),
            k.conditional_literal == clingo_kind_id_spec("conditional_literal"@, true),
            k.condition == clingo_kind_id_spec("condition"@, true),
            k.comparison == clingo_kind_id_spec("comparison"@, true),
            k.relation == clingo_kind_id_spec("relation"@, true),
            k.function == clingo_kind_id_spec("function"@, true),
            k.external_function == clingo_kind_id_spec("external_function"@, true),
            k.binary_operation == clingo_kind_id_spec("binary_operation"@, true),
            k.unary_operation == clingo_kind_id_spec("unary_operation"@, true),
            k.abs == clingo_kind_id_spec("abs"@, true),
            k.tuple == clingo_kind_id_spec("tuple"@, true),
            k.theory_function == clingo_kind_id_spec("theory_function"@, true),
            k.theory_tuple == clingo_kind_id_spec("theory_tuple"@, true),
            k.theory_list == clingo_kind_id_spec("theory_list"@, true),
            k.theory_set == clingo_kind_id_spec("theory_set"@, true),
            k.theory_unparsed_term == clingo_kind_id_spec("theory_unparsed_term"@, true),
            k.theory_terms == clingo_kind_id_spec("theory_terms"@, true),
            k.theory_operators == clingo_kind_id_spec("theory_operators"@, true),
            k.theory_element == clingo_kind_id_spec("theory_element"@, true),
            k.theory_atom_upper == clingo_kind_id_spec("theory_atom_upper"@, true),
            k.theory_operator_definition == clingo_kind_id_spec("theory_operator_definition"@, true),
            k.theory_operator_definitions == clingo_kind_id_spec("theory_operator_definitions"@, true),
            k.theory_term_definition == clingo_kind_id_spec("theory_term_definition"@, true),
            k.theory_atom_definition == clingo_kind_id_spec("theory_atom_definition"@, true),
            k.signature == clingo_kind_id_spec("signature"@, true),
            k.weight == clingo_kind_id_spec("weight"@, true),
            k.parameters == clingo_kind_id_spec("parameters"@, true),
            k.edge_pair == clingo_kind_id_spec("edge_pair"@, true),
            k.literal == clingo_kind_id_spec("literal"@, true),
            k.symbolic_atom == clingo_kind_id_spec("symbolic_atom"@, true),
            k.terms == clingo_kind_id_spec("terms"@, true),
            k.lone_comma == clingo_kind_id_spec("lone_comma"@, true),
            k.empty_pool_item == clingo_kind_id_spec("empty_pool_item"@, true),
            k.identifier == clingo_kind_id_spec("identifier"@, true),
            k.variable == clingo_kind_id_spec("variable"@, true),
            k.number == clingo_kind_id_spec("number"@, true),
            k.block_comment == clingo_kind_id_spec("block_comment"@, true),
            k.line_comment == clingo_kind_id_spec("line_comment"@, true),
            k.code == clingo_kind_id_spec("code"@, true),
            k.dot == clingo_kind_id_spec("."@, false),
            k.neck == clingo_kind_id_spec(":-"@, false),
            k.weak_neck == clingo_kind_id_spec(":~"@, false),
            k.colon == clingo_kind_id_spec(":"@, false),
            k.lbrace == clingo_kind_id_spec("{"@, false),
            k.rbrace == clingo_kind_id_spec("}"@, false),
            k.pipe == clingo_kind_id_spec("|"@, false),
            k.lparen == clingo_kind_id_spec("("@, false),
            k.rparen == clingo_kind_id_spec(")"@, false),
            k.semicolon == clingo_kind_id_spec(";"@, false),
            k.comma == clingo_kind_id_spec(","@, false),
            k.lbracket == clingo_kind_id_spec("["@, false),
            k.rbracket == clingo_kind_id_spec("]"@, false),
            k.equals == clingo_kind_id_spec("="@, false),
    {
        KindIds {
            source_file: clingo_kind_id("source_file", true),
            rule: clingo_kind_id("rule", true),
            integrity_constraint: clingo_kind_id("integrity_constraint", true),
            weak_constraint: clingo_kind_id("weak_constraint", true),
            minimize: clingo_kind_id("minimize", true),
            maximize: clingo_kind_id("maximize", true),
            show: clingo_kind_id("show", true),
            show_term: clingo_kind_id("show_term", true),
            show_signature: clingo_kind_id("show_signature", true),
            defined: clingo_kind_id("defined", true),
            edge: clingo_kind_id("edge", true),
            heuristic: clingo_kind_id("heuristic", true),
            project_signature: clingo_kind_id("project_signature", true),
            project_atom: clingo_kind_id("project_atom", true),
            const_: clingo_kind_id("const", true),
            script: clingo_kind_id("script", true),
            inclusion: inclusion_kind_id(),
            program: clingo_kind_id("program", true),
            external: clingo_kind_id("external", true),
            theory: clingo_kind_id("theory", true),
            body: clingo_kind_id("body", true),
            body_literal: clingo_kind_id("body_literal", true),
            disjunction: clingo_kind_id("disjunction", true),
            set_aggregate: clingo_kind_id("set_aggregate", true),
            body_aggregate: clingo_kind_id("body_aggregate", true),
            head_aggregate: clingo_kind_id("head_aggregate", true),
            theory_atom: clingo_kind_id("theory_atom", true),
            lower: clingo_kind_id("lower", true),
            upper: clingo_kind_id("upper", true),
            set_aggregate_elements: clingo_kind_id("set_aggregate_elements", true),
            head_aggregate_elements: clingo_kind_id("head_aggregate_elements", true),
            body_aggregate_elements: clingo_kind_id("body_aggregate_elements", true),
            theory_elements: clingo_kind_id("theory_elements", true),
            optimize_elements: clingo_kind_id("optimize_elements", true),
            set_aggregate_element: clingo_kind_id("set_aggregate_element", true),
            body_aggregate_element: clingo_kind_id("body_aggregate_element", true),
            head_aggregate_element: clingo_kind_id("head_aggregate_element", true),
            optimize_element: clingo_kind_id("optimize_element", true),
            conditional_literal: clingo_kind_id("conditional_literal", true),
            condition: clingo_kind_id("condition", true),
            comparison: clingo_kind_id("comparison", true),
            relation: clingo_kind_id("relation", true),
            function: clingo_kind_id("function", true),
            external_function: clingo_kind_id("external_function", true),
            binary_operation: clingo_kind_id("binary_operation", true),
            unary_operation: clingo_kind_id("unary_operation", true),
            abs: clingo_kind_id("abs", true),
            tuple: clingo_kind_id("tuple", true),
            theory_function: clingo_kind_id("theory_function", true),
            theory_tuple: clingo_kind_id("theory_tuple", true),
            theory_list: clingo_kind_id("theory_list", true),
            theory_set: clingo_kind_id("theory_set", true),
            theory_unparsed_term: clingo_kind_id("theory_unparsed_term", true),
            theory_terms: clingo_kind_id("theory_terms", true),
            theory_operators: clingo_kind_id("theory_operators", true),
            theory_element: clingo_kind_id("theory_element", true),
            theory_atom_upper: clingo_kind_id("theory_atom_upper", true),
            theory_operator_definition: clingo_kind_id("theory_operator_definition", true),
            theory_operator_definitions: clingo_kind_id("theory_operator_definitions", true),
            theory_term_definition: clingo_kind_id("theory_term_definition", true),
            theory_atom_definition: clingo_kind_id("theory_atom_definition", true),
            signature: clingo_kind_id("signature", true),
            weight: clingo_kind_id("weight", true),
            parameters: clingo_kind_id("parameters", true),
            edge_pair: clingo_kind_id("edge_pair", true),
            literal: clingo_kind_id("literal", true),
            symbolic_atom: clingo_kind_id("symbolic_atom", true),
            terms: clingo_kind_id("terms", true),
            lone_comma: clingo_kind_id("lone_comma", true),
            empty_pool_item: clingo_kind_id("empty_pool_item", true),
            identifier: clingo_kind_id("identifier", true),
            variable: clingo_kind_id("variable", true),
            number: clingo_kind_id("number", true),
            block_comment: clingo_kind_id("block_comment", true),
            line_comment: clingo_kind_id("line_comment", true),
            code: clingo_kind_id("code", true),
            dot: clingo_kind_id(".", false),
            neck: clingo_kind_id(":-", false),
            weak_neck: clingo_kind_id(":~", false),
            colon: clingo_kind_id(":", false),
            lbrace: clingo_kind_id("{", false),
            rbrace: clingo_kind_id("}", false),
            pipe: clingo_kind_id("|", false),
            lparen: clingo_kind_id("(", false),
            rparen: clingo_kind_id(")", false),
            semicolon: clingo_kind_id(";", false),
            comma: clingo_kind_id(",", false),
            lbracket: clingo_kind_id("[", false),
            rbracket: clingo_kind_id("]", false),
            equals: clingo_kind_id("=", false),
        }
    }
}

/// Cached field ids for the field labels the emitter dispatches on.
pub struct FieldIds {
    pub elements: u16,
    pub arguments: u16,
    pub left: u16,
    pub operator: u16,
    pub right: u16,
    pub sign: u16,
    pub language: u16,
}

impl FieldIds {
    /// Resolve the field ids from the vendored grammar.
    pub fn new() -> (f: Self)
        ensures
            f.elements == clingo_field_id_spec("elements"@),
            f.arguments == clingo_field_id_spec("arguments"@),
            f.left == clingo_field_id_spec("left"@),
            f.operator == clingo_field_id_spec("operator"@),
            f.right == clingo_field_id_spec("right"@),
            f.sign == clingo_field_id_spec("sign"@),
            f.language == clingo_field_id_spec("language"@),
    {
        FieldIds {
            elements: clingo_field_id("elements"),
            arguments: clingo_field_id("arguments"),
            left: clingo_field_id("left"),
            operator: clingo_field_id("operator"),
            right: clingo_field_id("right"),
            sign: clingo_field_id("sign"),
            language: clingo_field_id("language"),
        }
    }
}

} // verus!
