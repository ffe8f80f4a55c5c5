use kallos::fusion::{fuses, Class, Tok};

#[test]
fn fusing_seams_must_stay_spaced() {
    assert!(fuses(Tok::keyword("not"), Tok::ident("p")));
    assert!(fuses(Tok::ident("a"), Tok::number("1")));
    assert!(fuses(Tok::number("1"), Tok::number("2")));
    assert!(fuses(Tok::theory_op("-"), Tok::theory_op("+")));
    assert!(fuses(Tok::theory_op("<"), Tok::op("=")));
    assert!(fuses(Tok::op("*"), Tok::op("*")));
    assert!(fuses(Tok::colon(), Tok::op("-")));
    assert!(fuses(Tok::colon(), Tok::op("~")));
}

#[test]
fn certified_safe_seams_may_tighten() {
    assert!(!fuses(Tok::ident("f"), Tok::lparen()));
    assert!(!fuses(Tok::ident("X"), Tok::comma()));
    assert!(!fuses(Tok::comma(), Tok::ident("Y")));
    assert!(!fuses(Tok::ident("p"), Tok::op("/")));
    assert!(!fuses(Tok::op("/"), Tok::number("2")));
    assert!(!fuses(Tok::op("+"), Tok::op("-")));
    assert!(!fuses(Tok::op("**"), Tok::op("-")));
    assert!(!fuses(Tok::keyword("not"), Tok::op("-")));
    assert!(!fuses(Tok::ident("X"), Tok::relation("<=")));
    assert!(!fuses(Tok::relation("<="), Tok::number("1")));
}

#[test]
fn model_boundary_witnesses() {
    assert!(fuses(Tok::op("*"), Tok::op("**")));
    assert!(!fuses(Tok::op("**"), Tok::op("*")));
    assert!(!fuses(Tok::op("**"), Tok::op("**")));
    assert!(!fuses(Tok::op("*"), Tok::op("/")));
    assert!(!fuses(Tok::op("*"), Tok::op("-")));
    assert!(!fuses(Tok::theory_op("+"), Tok::lparen()));
    assert!(!fuses(Tok::theory_op("<="), Tok::comma()));
    assert!(!fuses(Tok::comma(), Tok::theory_op("+")));
    assert!(!fuses(Tok::ident("p"), Tok::theory_op("+")));
    assert!(!fuses(Tok::theory_op("+"), Tok::number("1")));
    assert!(fuses(Tok::theory_op("+"), Tok::theory_op("-")));
    assert!(fuses(Tok { class: Class::HardPunct, text: ";" }, Tok::theory_op("-")));
    assert!(fuses(Tok::theory_op("<="), Tok { class: Class::HardPunct, text: "." }));
    assert!(!fuses(Tok::colon(), Tok::op("*")));
    assert!(!fuses(Tok::colon(), Tok::relation("=")));
    assert!(fuses(Tok::colon(), Tok::theory_op("+")));
    assert!(!fuses(Tok::number("1"), Tok::op("..")));
    assert!(!fuses(Tok::op(".."), Tok::number("3")));
    assert!(!fuses(Tok::op(".."), Tok::op("-")));
    assert!(!fuses(Tok::comma(), Tok::comma()));
}
