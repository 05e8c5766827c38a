use merula::fex::FexParser;
use merula::node::Node;
use merula::sample::setup_memos;
use merula::value::Value;

#[test]
fn parse_fex() {
    assert!(FexParser::fex_ok("name~ium"));
    assert!(FexParser::fex_ok("name"));
    let nf = merula::fex::parse_fex("name~ium").unwrap();
    assert_eq!(nf.key, merula::filter::KeyFilter::Equals("name".into()));
    assert_eq!(nf.value, merula::filter::ValueFilter::Contains("ium".into()));
    assert!(merula::fex::parse_fex("~").is_err());
}

#[test]
fn value_equality_is_type_sensitive() {
    assert_ne!(Value::Integer(5), Value::Float(5.0f32.to_bits()));
    assert_eq!(Value::Integer(5), Value::Integer(5));
    assert_eq!(Value::Float(5.0f32.to_bits()), Value::Float(5.0f32.to_bits()));
    assert_ne!(Value::Text("5".into()), Value::Integer(5));
    assert_ne!(
        Value::Text("a".into()),
        Value::MultiLineText("a".into(), "EOF".into())
    );
}

#[test]
fn numeric_coercion() {
    assert_eq!(
        Value::Text("5".into()).to_float_bits(),
        Some(5.0f32.to_bits())
    );
    assert_eq!(Value::Text("five".into()).to_float_bits(), None);
    assert_eq!(Value::Bool(true).to_float_bits(), None);
    assert_eq!(
        Value::Text("3.25".into()).to_float_bits(),
        Some(3.25f32.to_bits())
    );
    assert_eq!(
        Value::Text("-2e3".into()).to_float_bits(),
        Some((-2000.0f32).to_bits())
    );
    assert_eq!(
        Value::Text("inf".into()).to_float_bits(),
        Some(f32::INFINITY.to_bits())
    );
    assert_eq!(Value::Integer(7).to_float_bits(), Some(7.0f32.to_bits()));
    assert_eq!(
        Value::Float(1.5f32.to_bits()).to_float_bits(),
        Some(1.5f32.to_bits())
    );
    assert_eq!(
        Value::MultiLineText("5".into(), "EOF".into()).to_float_bits(),
        None
    );
}

#[test]
fn textual_construction() {
    assert_eq!(Value::from_text("plain"), Value::Text("plain".into()));
    assert_eq!(
        Value::from_text("two\nlines"),
        Value::MultiLineText("two\nlines".into(), "EOF".into())
    );
}

#[test]
fn value_kinds() {
    assert!(Value::Bool(false).is_bool());
    assert!(!Value::Integer(1).is_bool());
    assert!(Value::Integer(1).is_number());
    assert!(Value::Float(0).is_number());
    assert!(!Value::Text("x".into()).is_number());
    assert!(Value::Text("x".into()).is_text());
    assert!(Value::MultiLineText("x".into(), "EOF".into()).is_text());
    assert!(!Value::Bool(true).is_text());
    assert!(Value::Integer(1).is_integer());
    assert!(!Value::Float(0).is_integer());
    assert!(Value::Float(0).is_float());
    assert!(!Value::Integer(1).is_float());
}

#[test]
fn value_rendering() {
    assert_eq!(Value::Text("blue".into()).to_text(), "blue");
    assert_eq!(Value::Integer(42).to_text(), "42");
    assert_eq!(Value::Integer(-7).to_text(), "-7");
    assert_eq!(Value::Integer(i32::MIN).to_text(), "-2147483648");
    assert_eq!(Value::Bool(true).to_text(), "true");
    assert_eq!(Value::Bool(false).to_text(), "false");
    assert_eq!(
        Value::MultiLineText("a\nb".into(), "END".into()).to_text(),
        "<<END\na\nb\nEND"
    );
}

#[test]
fn node_attrs_replace_on_same_key() {
    let node = Node::new("author", Value::from_text("X"))
        .with_attr("tag", Value::from_text("a"))
        .with_attr("tag", Value::from_text("b"))
        .with_attr("source", Value::from_text("s"));
    assert_eq!(node.attrs.len(), 2);
    assert_eq!(node.get_attr("tag").unwrap(), &Value::from_text("b"));
}

#[test]
fn sample_memos_shape() {
    let memos = setup_memos();
    assert_eq!(memos.len(), 12);
    assert_eq!(memos[0].collection(), "book");
    assert_eq!(memos[0].data_count(), 7);
    // contains_key scans the header too, so the two author records
    // count along with the two books that hold an author data node
    let with_author = memos
        .iter()
        .filter(|m| m.contains_key("author"))
        .count();
    assert_eq!(with_author, 4);
}

#[test]
fn float_rendering_is_usable() {
    let five = Value::Float(5.0f32.to_bits());
    let six = Value::Float(6.0f32.to_bits());
    let s5 = five.to_text();
    let s6 = six.to_text();
    assert_ne!(s5, s6);
    assert!(!s5.is_empty());
    // the rendering matches its own value under the equality filter
    assert!(merula::filter::ValueFilter::Equals(s5).check(&five));
    assert!(!merula::filter::ValueFilter::Equals(s6).check(&five));
}
