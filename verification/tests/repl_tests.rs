use mal::repl::rep;

#[test]
fn rep_echoes_a_form_canonically() {
    assert_eq!(rep("(+ 1 2)".to_string()), "(+ 1 2)");
    assert_eq!(rep("( + ,1,,2 )".to_string()), "(+ 1 2)");
}

#[test]
fn rep_answers_nothing_for_blank_or_comment() {
    assert_eq!(rep("".to_string()), "");
    assert_eq!(rep("; only a comment".to_string()), "");
}

#[test]
fn rep_reports_errors() {
    assert_eq!(rep("(1".to_string()), "ERROR: Expected ')', but got EOF.");
    assert_eq!(rep(")".to_string()), "ERROR: Unexpected end of list ')'.");
}
