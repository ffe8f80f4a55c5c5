use kallos::cst::{clingo_field_id, clingo_kind_id};
use kallos::cst::KindIds;
use kallos::has_error;

#[test]
fn has_error_mirrors_node_has_error() {
    assert!(!has_error("a :- b.\n"));
    assert!(has_error("a :- :- .\n"));
    assert!(has_error("p(.\n"));
}

#[test]
fn kind_ids_resolve_for_load_bearing_kinds() {
    let k = KindIds::new();
    assert_ne!(k.rule, 0);
    assert_ne!(k.integrity_constraint, 0);
    assert_ne!(k.function, 0);
    assert_ne!(k.dot, 0);
    assert_ne!(k.rule, k.function);
}

#[test]
fn theory_kind_ids_resolve() {
    let k = KindIds::new();
    for id in [
        k.theory_function,
        k.theory_tuple,
        k.theory_list,
        k.theory_set,
        k.theory_unparsed_term,
        k.theory_terms,
        k.theory_operators,
        k.theory_element,
        k.theory_atom_upper,
        k.theory_atom_definition,
        k.comma,
        k.lbracket,
        k.rbracket,
    ] {
        assert_ne!(id, 0, "theory kind id must resolve");
    }
}

#[test]
fn directive_kind_ids_resolve() {
    let k = KindIds::new();
    for id in [k.signature, k.weight, k.parameters, k.edge_pair, k.equals] {
        assert_ne!(id, 0);
    }
}

#[test]
fn the_inclusion_kind_resolves() {
    let k = KindIds::new();
    assert_ne!(k.inclusion, 0);
}

fn tree_model(src: &str) -> kallos::cst::Cst {
    kallos::cst::read_source(src).expect("the grammar parses any string")
}

/// The first node of kind `kind` in the model's node order.
fn find_first(cst: &kallos::cst::Cst, kind: u16) -> Option<usize> {
    cst.nodes.iter().position(|n| n.kind == kind)
}

#[test]
fn parses_a_trivial_rule() {
    let cst = tree_model("a :- b.\n");
    let root = cst.nodes[0];
    assert_eq!(root.kind, KindIds::new().source_file);
    assert!(!root.has_error, "a valid rule must parse without ERROR");
}

#[test]
fn marks_invalid_input_with_error() {
    let cst = tree_model("a :- :- .\n");
    assert!(cst.nodes[0].has_error, "malformed input must carry ERROR");
}

#[test]
fn walk_visits_anonymous_tokens_and_repeated_pool_fields() {
    // A pool `f(a; b)` lives on the `symbolic_atom` node and surfaces `arguments`
    // more than once, plus the anonymous `(` `;` `)`.
    let cst = tree_model("f(a; b).\n");
    let atom = find_first(&cst, KindIds::new().symbolic_atom).expect("a symbolic_atom node");
    let labels: Vec<(u16, u16)> = cst
        .walk_children(atom)
        .into_iter()
        .map(|(field, child)| (field, cst.nodes[child].kind))
        .collect();
    assert!(labels.iter().any(|&(_, k)| k == clingo_kind_id("(", false)));
    assert!(labels.iter().any(|&(_, k)| k == clingo_kind_id(")", false)));
    assert!(labels.iter().any(|&(_, k)| k == clingo_kind_id(";", false)));
    let arguments = clingo_field_id("arguments");
    let args = labels.iter().filter(|&&(f, _)| f == arguments).count();
    assert!(args >= 2, "pool segments surface as repeated `arguments` fields, got {args}");
}

#[test]
fn is_leaf_distinguishes_tokens_from_branches() {
    let cst = tree_model("f(a).\n");
    let k = KindIds::new();
    let atom = find_first(&cst, k.symbolic_atom).expect("a symbolic_atom node");
    assert!(!kallos::cst::is_leaf(&cst, atom), "a symbolic_atom is a branch with children");
    let dot = find_first(&cst, k.dot).expect("the statement-terminator dot");
    assert!(kallos::cst::is_leaf(&cst, dot), "an anonymous token has no children");
}
