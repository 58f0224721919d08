use mal::printer::pr_str;
use mal::reader::read_str;
use mal::types::MalVal;

#[test]
fn print_scalars() {
    assert_eq!(pr_str(&MalVal::Int(42)), "42");
    assert_eq!(pr_str(&MalVal::Int(-7)), "-7");
    assert_eq!(pr_str(&MalVal::Int(0)), "0");
    assert_eq!(pr_str(&MalVal::Nil), "nil");
    assert_eq!(pr_str(&MalVal::Boolean(true)), "true");
    assert_eq!(pr_str(&MalVal::Boolean(false)), "false");
    assert_eq!(pr_str(&MalVal::Atom("foo".to_string())), "foo");
    assert_eq!(pr_str(&MalVal::Keyword("kw".to_string())), ":kw");
}

#[test]
fn print_string_is_quoted_and_escaped() {
    assert_eq!(pr_str(&MalVal::String("a b".to_string())), "\"a b\"");
    assert_eq!(pr_str(&MalVal::String("a\nb".to_string())), "\"a\\nb\"");
    assert_eq!(
        pr_str(&MalVal::String("say \"hi\"".to_string())),
        "\"say \\\"hi\\\"\""
    );
}

#[test]
fn print_sequences() {
    let v = MalVal::List(vec![
        MalVal::Int(1),
        MalVal::Int(2),
        MalVal::List(vec![MalVal::Int(3), MalVal::Int(4)]),
    ]);
    assert_eq!(pr_str(&v), "(1 2 (3 4))");
    let v = MalVal::Vector(vec![MalVal::Int(1), MalVal::Keyword("a".to_string())]);
    assert_eq!(pr_str(&v), "[1 :a]");
    assert_eq!(pr_str(&MalVal::List(vec![])), "()");
    assert_eq!(pr_str(&MalVal::Vector(vec![])), "[]");
}

#[test]
fn print_map_alternates_key_value() {
    let v = MalVal::HashMap(vec![
        MalVal::Keyword("a".to_string()),
        MalVal::Int(1),
        MalVal::Keyword("b".to_string()),
        MalVal::Int(2),
    ]);
    assert_eq!(pr_str(&v), "{:a 1 :b 2}");
    assert_eq!(pr_str(&MalVal::HashMap(vec![])), "{}");
}

#[test]
fn print_error_sentinel() {
    let v = MalVal::Error("boom".to_string());
    assert_eq!(pr_str(&v), "ERROR: boom");
}

#[test]
fn print_extreme_integers() {
    assert_eq!(pr_str(&MalVal::Int(isize::MIN)), format!("{}", isize::MIN));
    assert_eq!(pr_str(&MalVal::Int(isize::MAX)), format!("{}", isize::MAX));
}

#[test]
fn round_trip_value_to_text_to_value() {
    let v = MalVal::List(vec![
        MalVal::Int(1),
        MalVal::Atom("foo".to_string()),
        MalVal::String("a\nb \"q\" \\".to_string()),
        MalVal::Vector(vec![MalVal::Nil, MalVal::Boolean(true)]),
        MalVal::Keyword("k".to_string()),
    ]);
    let text = pr_str(&v);
    assert_eq!(read_str(text), Ok(Some(v)));
}

#[test]
fn round_trip_text_to_value_to_text() {
    let text = "(1 2 (3 [4 \"five\"] :six) nil true false)";
    let v = read_str(text.to_string()).unwrap().unwrap();
    assert_eq!(pr_str(&v), text);
}
