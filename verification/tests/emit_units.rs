use kallos::emit::embedded::format_embedded;
use kallos::emit::reinject::trim_comment_end;
use kallos::emit::spacing::{comma_spacing, sign_spacing, term_operator_spacing, theory_operator_spacing, Sep};

#[test]
fn v0_is_the_identity_for_any_language() {
    let code = "\ndef main():\n    return 1\n";
    assert_eq!(format_embedded("python", code), code);
    assert_eq!(format_embedded("lua", code), code);
    assert_eq!(format_embedded("unknown", code), code);
}

#[test]
fn trim_comment_end_strips_trailing_whitespace() {
    let src = "% note   \n";
    assert_eq!(&src[0..trim_comment_end(src, 0, 9)], "% note");
}

#[test]
fn trim_comment_end_is_identity_without_trailing_whitespace() {
    assert_eq!(trim_comment_end("% note", 0, 6), 6);
}

#[test]
fn comma_spacing_is_bracket_depth_based() {
    assert_eq!(comma_spacing(0), Sep::Spaced);
    assert_eq!(comma_spacing(1), Sep::Spaced);
    assert_eq!(comma_spacing(2), Sep::Tight);
}

#[test]
fn theory_operators_are_never_tightened() {
    assert_eq!(theory_operator_spacing(), Sep::Spaced);
}

#[test]
fn not_is_spaced_but_classical_minus_is_tight() {
    assert_eq!(sign_spacing("not"), Sep::Spaced);
    assert_eq!(sign_spacing("not not"), Sep::Spaced);
    assert_eq!(sign_spacing("-"), Sep::Tight);
}

#[test]
fn term_operators_tighten_one_level_earlier_than_commas() {
    assert_eq!(term_operator_spacing(0), Sep::Spaced);
    assert_eq!(term_operator_spacing(1), Sep::Tight);
}
