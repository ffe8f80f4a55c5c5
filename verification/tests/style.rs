use kallos::Style;

#[test]
fn default_is_house_style_width_100() {
    assert_eq!(Style::default().line_width(), 100);
}

#[test]
fn with_line_width_clamps_zero_to_one() {
    assert_eq!(Style::default().with_line_width(0).line_width(), 1);
    assert_eq!(Style::default().with_line_width(80).line_width(), 80);
}

#[test]
fn house_constants_are_fixed() {
    let s = Style::default();
    assert_eq!(s.indent(), 4);
    assert_eq!(s.neck_width(), 3);
}
