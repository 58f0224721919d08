use mal::reader::{read_str, tokenize, MAX_NESTING_DEPTH};
use mal::types::MalVal;

fn sym(s: &str) -> MalVal {
    MalVal::Atom(s.to_string())
}

#[test]
fn tokenize_simple_call() {
    let toks = tokenize("(+ 1 2)".to_string());
    assert_eq!(toks, vec!["(", "+", "1", "2", ")"]);
}

#[test]
fn tokenize_empty() {
    let toks = tokenize("".to_string());
    assert_eq!(toks, Vec::<String>::new());
}

#[test]
fn tokenize_separators_and_commas() {
    let toks = tokenize("  ,1,, 2 , ".to_string());
    assert_eq!(toks, vec!["1", "2"]);
}

#[test]
fn tokenize_splice_unquote_and_specials() {
    let toks = tokenize("~@(a ~b)".to_string());
    assert_eq!(toks, vec!["~@", "(", "a", "~", "b", ")"]);
}

#[test]
fn tokenize_string_literal_with_escapes() {
    let toks = tokenize("\"a\\\"b\" x".to_string());
    assert_eq!(toks, vec!["\"a\\\"b\"", "x"]);
}

#[test]
fn tokenize_comment_runs_to_end_of_line() {
    let toks = tokenize("1 ; rest of line\n2".to_string());
    assert_eq!(toks, vec!["1", "; rest of line", "2"]);
}

#[test]
fn tokenize_symbol_may_hold_tilde_inside() {
    let toks = tokenize("a~b".to_string());
    assert_eq!(toks, vec!["a~b"]);
}

#[test]
fn read_nested_list() {
    let got = read_str("(1 2 (3 4))".to_string());
    let want = MalVal::List(vec![
        MalVal::Int(1),
        MalVal::Int(2),
        MalVal::List(vec![MalVal::Int(3), MalVal::Int(4)]),
    ]);
    assert_eq!(got, Ok(Some(want)));
}

#[test]
fn read_vector_with_string_and_keyword() {
    let got = read_str("[1 \"a\" :kw]".to_string());
    let want = MalVal::Vector(vec![
        MalVal::Int(1),
        MalVal::String("a".to_string()),
        MalVal::Keyword("kw".to_string()),
    ]);
    assert_eq!(got, Ok(Some(want)));
}

#[test]
fn read_quote_sugar() {
    let got = read_str("'(1 2)".to_string());
    let want = MalVal::List(vec![
        sym("quote"),
        MalVal::List(vec![MalVal::Int(1), MalVal::Int(2)]),
    ]);
    assert_eq!(got, Ok(Some(want)));
}

#[test]
fn read_quasiquote_unquote_splice_deref() {
    assert_eq!(
        read_str("`x".to_string()),
        Ok(Some(MalVal::List(vec![sym("quasiquote"), sym("x")])))
    );
    assert_eq!(
        read_str("~x".to_string()),
        Ok(Some(MalVal::List(vec![sym("unquote"), sym("x")])))
    );
    assert_eq!(
        read_str("~@x".to_string()),
        Ok(Some(MalVal::List(vec![sym("splice-unquote"), sym("x")])))
    );
    assert_eq!(
        read_str("@x".to_string()),
        Ok(Some(MalVal::List(vec![sym("deref"), sym("x")])))
    );
}

#[test]
fn read_unterminated_list_is_an_error() {
    let got = read_str("(1 2".to_string());
    assert_eq!(got, Err("Expected ')', but got EOF.".to_string()));
}

#[test]
fn read_unterminated_vector_and_map() {
    assert_eq!(
        read_str("[1 2".to_string()),
        Err("Expected ']', but got EOF.".to_string())
    );
    assert_eq!(
        read_str("{:a 1".to_string()),
        Err("Expected '}', but got EOF.".to_string())
    );
}

#[test]
fn read_odd_map_is_an_error() {
    let got = read_str("{1 2 3}".to_string());
    assert_eq!(
        got,
        Err("A hash-map must contain an even number of forms.".to_string())
    );
}

#[test]
fn read_map_keeps_forms_in_order() {
    let got = read_str("{:a 1 :b 2}".to_string());
    let want = MalVal::HashMap(vec![
        MalVal::Keyword("a".to_string()),
        MalVal::Int(1),
        MalVal::Keyword("b".to_string()),
        MalVal::Int(2),
    ]);
    assert_eq!(got, Ok(Some(want)));
}

#[test]
fn read_comment_only_is_no_form() {
    let got = read_str("; comment only".to_string());
    assert_eq!(got, Ok(None));
}

#[test]
fn read_blank_input_is_no_form() {
    assert_eq!(read_str("".to_string()), Ok(None));
    assert_eq!(read_str("   ,,, ".to_string()), Ok(None));
}

#[test]
fn read_comment_before_form_is_transparent() {
    let got = read_str("; note\n42".to_string());
    assert_eq!(got, Ok(Some(MalVal::Int(42))));
}

#[test]
fn read_comment_inside_list_is_transparent() {
    let got = read_str("(1 ; note\n 2)".to_string());
    assert_eq!(
        got,
        Ok(Some(MalVal::List(vec![MalVal::Int(1), MalVal::Int(2)])))
    );
}

#[test]
fn read_metadata_form() {
    let got = read_str("^{:a 1} (2 3)".to_string());
    let want = MalVal::List(vec![
        sym("with-meta"),
        MalVal::List(vec![MalVal::Int(2), MalVal::Int(3)]),
        MalVal::HashMap(vec![MalVal::Keyword("a".to_string()), MalVal::Int(1)]),
    ]);
    assert_eq!(got, Ok(Some(want)));
}

#[test]
fn read_metadata_errors() {
    assert_eq!(
        read_str("^".to_string()),
        Err("Invalid use of '^'.".to_string())
    );
    assert_eq!(
        read_str("^1 2".to_string()),
        Err("Metadata must be a hash-map.".to_string())
    );
    assert_eq!(
        read_str("^{}".to_string()),
        Err("Can't attach metadata to nothing.".to_string())
    );
}

#[test]
fn read_missing_prefixed_form_errors() {
    assert_eq!(
        read_str("'".to_string()),
        Err("Invalid quoted form.".to_string())
    );
    assert_eq!(
        read_str("`".to_string()),
        Err("Invalid quasiquoted form.".to_string())
    );
    assert_eq!(
        read_str("~".to_string()),
        Err("Invalid unquoted form.".to_string())
    );
    assert_eq!(
        read_str("~@".to_string()),
        Err("Invalid splice-unquoted form.".to_string())
    );
    assert_eq!(
        read_str("@".to_string()),
        Err("Invalid dereferenced form.".to_string())
    );
}

#[test]
fn read_unexpected_closers() {
    assert_eq!(
        read_str(")".to_string()),
        Err("Unexpected end of list ')'.".to_string())
    );
    assert_eq!(
        read_str("]".to_string()),
        Err("Unexpected end of vector ']'.".to_string())
    );
    assert_eq!(
        read_str("}".to_string()),
        Err("Unexpected end of hash-map '}'.".to_string())
    );
}

#[test]
fn read_atoms() {
    assert_eq!(read_str("nil".to_string()), Ok(Some(MalVal::Nil)));
    assert_eq!(read_str("true".to_string()), Ok(Some(MalVal::Boolean(true))));
    assert_eq!(
        read_str("false".to_string()),
        Ok(Some(MalVal::Boolean(false)))
    );
    assert_eq!(
        read_str(":kw".to_string()),
        Ok(Some(MalVal::Keyword("kw".to_string())))
    );
    assert_eq!(read_str("foo".to_string()), Ok(Some(sym("foo"))));
}

#[test]
fn read_integers() {
    assert_eq!(read_str("0".to_string()), Ok(Some(MalVal::Int(0))));
    assert_eq!(read_str("-7".to_string()), Ok(Some(MalVal::Int(-7))));
    assert_eq!(read_str("007".to_string()), Ok(Some(MalVal::Int(7))));
    assert_eq!(read_str("-".to_string()), Ok(Some(sym("-"))));
    assert_eq!(read_str("1x".to_string()), Ok(Some(sym("1x"))));
}

#[test]
fn read_extreme_integers() {
    let min = format!("{}", isize::MIN);
    assert_eq!(read_str(min), Ok(Some(MalVal::Int(isize::MIN))));
    let max = format!("{}", isize::MAX);
    assert_eq!(read_str(max), Ok(Some(MalVal::Int(isize::MAX))));
}

#[test]
fn read_out_of_range_integer_is_an_error() {
    let got = read_str("99999999999999999999999999".to_string());
    assert_eq!(got, Err("Integer literal out of range.".to_string()));
    let got = read_str("-99999999999999999999999999".to_string());
    assert_eq!(got, Err("Integer literal out of range.".to_string()));
}

#[test]
fn read_string_literals() {
    assert_eq!(
        read_str("\"a b\"".to_string()),
        Ok(Some(MalVal::String("a b".to_string())))
    );
    assert_eq!(
        read_str("\"a\\nb\"".to_string()),
        Ok(Some(MalVal::String("a\nb".to_string())))
    );
    assert_eq!(
        read_str("\"say \\\"hi\\\"\"".to_string()),
        Ok(Some(MalVal::String("say \"hi\"".to_string())))
    );
    assert_eq!(
        read_str("\"\"".to_string()),
        Ok(Some(MalVal::String("".to_string())))
    );
}

#[test]
fn read_unterminated_string_is_an_error() {
    assert_eq!(
        read_str("\"abc".to_string()),
        Err("Unterminated string literal.".to_string())
    );
    assert_eq!(
        read_str("\"".to_string()),
        Err("Unterminated string literal.".to_string())
    );
    assert_eq!(
        read_str("\"abc\\\"".to_string()),
        Err("Unterminated string literal.".to_string())
    );
}

#[test]
fn read_rejects_too_deep_nesting() {
    let mut text = String::new();
    for _ in 0..(MAX_NESTING_DEPTH + 10) {
        text.push('(');
    }
    assert_eq!(
        read_str(text),
        Err("Exceeded maximum nesting depth.".to_string())
    );
}

#[test]
fn read_accepts_reasonable_nesting() {
    let mut text = String::new();
    for _ in 0..20 {
        text.push('(');
    }
    for _ in 0..20 {
        text.push(')');
    }
    let got = read_str(text).unwrap().unwrap();
    let mut want = MalVal::List(vec![]);
    for _ in 0..19 {
        want = MalVal::List(vec![want]);
    }
    assert_eq!(got, want);
}

#[test]
fn read_only_first_form() {
    assert_eq!(read_str("1 2 3".to_string()), Ok(Some(MalVal::Int(1))));
}
