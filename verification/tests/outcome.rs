use kallos::cli::outcome::{reduce, Action, Severity};

#[test]
fn severity_orders_ok_lt_changed_lt_failed() {
    assert!(Severity::Success < Severity::Changed);
    assert!(Severity::Changed < Severity::Failed);
}

#[test]
fn exit_codes_mirror_black() {
    assert_eq!(Severity::Success.exit_code(), 0);
    assert_eq!(Severity::Changed.exit_code(), 1);
    assert_eq!(Severity::Failed.exit_code(), 123);
}

#[test]
fn reduce_takes_the_max_severity() {
    assert_eq!(reduce(&[]), Severity::Success);
    assert_eq!(reduce(&[Action::Unchanged, Action::Reformatted]), Severity::Success);
    assert_eq!(reduce(&[Action::Unchanged, Action::WouldReformat]), Severity::Changed);
    assert_eq!(reduce(&[Action::WouldReformat, Action::Skipped]), Severity::Failed);
}

#[test]
fn reduce_is_order_independent_on_a_concrete_run() {
    let a = [Action::Skipped, Action::Unchanged, Action::WouldReformat];
    let b = [Action::WouldReformat, Action::Skipped, Action::Unchanged];
    assert_eq!(reduce(&a), reduce(&b));
    assert_eq!(reduce(&a), Severity::Failed);
}

#[test]
fn max_is_the_greater_severity() {
    assert_eq!(Severity::Success.max(Severity::Failed), Severity::Failed);
    assert_eq!(Severity::Changed.max(Severity::Success), Severity::Changed);
}
