use merula::filter::{IndexFilter, KeyFilter, ValueFilter};
use merula::memo::{Memo, NodeType};
use merula::mql::MqlParser;
use merula::node::Node;
use merula::value::Value;

// Try to match all given input items `ok` with the given recognizer.
// Return a vector of all input strings that could not be matched,
// or None if all items matched.
fn check_ok(rule: fn(&str) -> bool, ok: &[&str]) -> Option<Vec<String>> {
    let output = ok
        .iter()
        .filter(|&item| !rule(item))
        .map(|&item| item.to_string())
        .collect::<Vec<String>>();

    if output.len() > 0 {
        Some(output)
    } else {
        None
    }
}

// Try to match all given input items `err` with the given recognizer.
// Return a vector of all input strings that matched (even though we
// assumed they would not) or None if no item matched.
fn check_err(rule: fn(&str) -> bool, err: &[&str]) -> Option<Vec<String>> {
    let output = err
        .iter()
        .filter(|&item| rule(item))
        .map(|&item| item.to_string())
        .collect::<Vec<String>>();

    if output.len() > 0 {
        Some(output)
    } else {
        None
    }
}

// Combine check_ok and check_err into one function.
fn check_ok_err(
    rule: fn(&str) -> bool,
    ok: &[&str],
    err: &[&str],
) -> (Option<Vec<String>>, Option<Vec<String>>) {
    (check_ok(rule, ok), check_err(rule, err))
}

#[test]
fn parse_key() {
    let rule = MqlParser::key_ok as fn(&str) -> bool;
    let ok = ["foo", "bar", "foo123", "mr:filter", "Glück", "Überraschung"];
    let err = ["@foo", ".abc"];
    assert_eq!(check_ok_err(rule, &ok, &err), (None, None));
}

#[test]
fn parse_alpha() {
    let rule = MqlParser::key_ok as fn(&str) -> bool;
    let ok = ["a", "b", "c", "ü", "ä"];
    let err = ["1", "2", "_"];
    assert_eq!(check_ok_err(rule, &ok, &err), (None, None));
}

#[test]
fn parse_unquoted_value() {
    let rule = MqlParser::unquoted_value_ok as fn(&str) -> bool;
    let ok = ["foo", "bar"];
    let err = [];
    assert_eq!(check_ok_err(rule, &ok, &err), (None, None));
}

#[test]
fn parse_quoted_value() {
    let rule = MqlParser::quoted_value_ok as fn(&str) -> bool;
    let ok = ["'foo'", "'bar'", "'foo bar'"];
    let err = ["'foo", "foo'"];
    assert_eq!(check_ok_err(rule, &ok, &err), (None, None));
}

#[test]
fn parse_value() {
    let rule = MqlParser::value_ok as fn(&str) -> bool;
    let ok = ["foo", "bar", "'foo'", "'bar'", "'foo bar'"];
    let err = [];
    assert_eq!(check_ok_err(rule, &ok, &err), (None, None));
}

#[test]
fn parse_mql() {
    let rule = MqlParser::mql_ok as fn(&str) -> bool;
    let ok = ["foo", "bar", "foo,bar", " foo,bar "];
    let err = [];
    assert_eq!(check_ok_err(rule, &ok, &err), (None, None));
}

#[test]
fn parse_index_single() {
    let rule = MqlParser::index_single_ok as fn(&str) -> bool;
    let ok = ["[1]", "[42]"];
    let err = ["1", "42", "alpha", "[a]", "[1", "2]"];
    assert_eq!(check_ok_err(rule, &ok, &err), (None, None));
}

#[test]
fn parse_index_range() {
    let rule = MqlParser::index_range_ok as fn(&str) -> bool;
    let ok = ["[1:42]"];
    let err = ["1", "42", "alpha", "[a]", "[1", "2]", "[1]", "[42]"];
    assert_eq!(check_ok_err(rule, &ok, &err), (None, None));
}

#[test]
fn compile_conditions() {
    let mf = merula::mql::parse_mql("@book, .author='J.R.R. Tolkien', amu>5, name~ium").unwrap();
    assert_eq!(mf.node_filters.len(), 4);

    assert_eq!(mf.node_filters[0].node_type, NodeType::Header);
    assert_eq!(mf.node_filters[0].key, KeyFilter::Equals("book".into()));
    assert_eq!(mf.node_filters[0].value, ValueFilter::Any);

    assert_eq!(mf.node_filters[1].node_type, NodeType::Data);
    assert_eq!(mf.node_filters[1].key, KeyFilter::Equals("author".into()));
    assert_eq!(
        mf.node_filters[1].value,
        ValueFilter::Equals("J.R.R. Tolkien".into())
    );

    assert_eq!(mf.node_filters[2].node_type, NodeType::Any);
    assert_eq!(mf.node_filters[2].value, ValueFilter::MoreThan(5.0f32.to_bits()));

    assert_eq!(mf.node_filters[3].value, ValueFilter::Contains("ium".into()));
}

#[test]
fn compile_index_conditions() {
    let mf = merula::mql::parse_mql("character[1]").unwrap();
    assert_eq!(mf.node_filters[0].index, IndexFilter::Single(1));

    let mf = merula::mql::parse_mql("character[1:2]").unwrap();
    assert_eq!(mf.node_filters[0].index, IndexFilter::Range(1, 2));
}

#[test]
fn compile_errors() {
    assert_eq!(merula::mql::parse_mql("").err(), Some("unsuccessful parse"));
    assert_eq!(merula::mql::parse_mql("123").err(), Some("unsuccessful parse"));
    assert_eq!(merula::mql::parse_mql("foo,").err(), Some("unsuccessful parse"));
    assert_eq!(merula::mql::parse_mql("foo[a]").err(), Some("unsuccessful parse"));
    // a numeric operator needs a numeric operand
    assert_eq!(merula::mql::parse_mql("amu>abc").err(), Some("unsuccessful parse"));
    // while the textual operators take any operand
    assert!(merula::mql::parse_mql("amu=abc").is_ok());
}

#[test]
fn compile_then_evaluate() {
    let mf = merula::mql::parse_mql("amu>5").unwrap();

    let low = Memo::new("element", "boron")
        .with(Node::new("amu", Value::Float(3.2f32.to_bits())));
    let high = Memo::new("element", "oxygen")
        .with(Node::new("amu", Value::Float(8.0f32.to_bits())));
    let text = Memo::new("element", "unknown")
        .with(Node::new("amu", Value::from_text("n/a")));

    assert!(!mf.check(&low));
    assert!(mf.check(&high));
    assert!(!mf.check(&text));
}

#[test]
fn compile_prefix_and_index_then_evaluate() {
    let memo = Memo::new("book", "The Lord of the Rings")
        .with(Node::new("character", Value::from_text("Bilbo")))
        .with(Node::new("character", Value::from_text("Frodo")));

    // header scope: matches the collection, not the data keys
    assert!(merula::mql::parse_mql("@book").unwrap().check(&memo));
    assert!(!merula::mql::parse_mql("@character").unwrap().check(&memo));
    assert!(merula::mql::parse_mql(".character").unwrap().check(&memo));

    // the index counts occurrences of the key
    assert!(merula::mql::parse_mql("character[1]='Frodo'").unwrap().check(&memo));
    assert!(!merula::mql::parse_mql("character[1]='Bilbo'").unwrap().check(&memo));

    // quoted operands keep their spaces
    assert!(merula::mql::parse_mql("@book='The Lord of the Rings'").unwrap().check(&memo));
}
