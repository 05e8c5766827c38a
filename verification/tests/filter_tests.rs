use merula::filter::{IndexFilter, KeyFilter, MemoFilter, NodeFilter, ValueFilter};
use merula::memo::{Memo, NodeType};
use merula::node::Node;
use merula::value::Value;

fn sample_memo() -> Memo {
    let mut memo = Memo::new("book", "The Lord of the Rings");
    memo.push(Node::new("author", Value::from_text("J. R. R. Tolkien")));
    memo.push(Node::new("character", Value::from_text("Bilbo Baggins")));
    memo.push(Node::new("character", Value::from_text("Samweis Gamdschie")));
    memo.push(Node::new("character", Value::from_text("Aragorn")));
    memo.push(Node::new("character", Value::from_text("Gandalf")));
    memo
}

#[test]
fn test_key_filter() {
    let memo = sample_memo();

    let mut nf = NodeFilter::default();
    nf.key = KeyFilter::Equals("author".into());
    assert_eq!(nf.check_memo(&memo), true);

    let mut nf = NodeFilter::default();
    nf.key = KeyFilter::Equals("character".into());
    assert_eq!(nf.check_memo(&memo), true);

    let mut nf = NodeFilter::default();
    nf.key = KeyFilter::Equals("tag".into());
    assert_eq!(nf.check_memo(&memo), false);
}

#[test]
fn test_select() {
    let memo = sample_memo();

    let mut nf = NodeFilter::default();
    nf.key = KeyFilter::Equals("author".into());
    let nodes = nf.select(&memo);
    assert_eq!(nodes[0].value, Value::Text("J. R. R. Tolkien".into()));
    assert_eq!(nodes.len(), 1);

    let mut nf = NodeFilter::default();
    nf.key = KeyFilter::Equals("character".into());
    let nodes = nf.select(&memo);
    assert_eq!(nodes[0].value, Value::Text("Bilbo Baggins".into()));
    assert_eq!(nodes[1].value, Value::Text("Samweis Gamdschie".into()));
    assert_eq!(nodes[2].value, Value::Text("Aragorn".into()));
    assert_eq!(nodes[3].value, Value::Text("Gandalf".into()));
    assert_eq!(nodes.len(), 4);
}

#[test]
fn test_select_indices() {
    let memo = sample_memo();

    let nf = NodeFilter::default().with_key(KeyFilter::Equals("author".into()));
    let indices = nf.select_indices(&memo);
    assert_eq!(indices, [1]);

    let nf = NodeFilter::default().with_key(KeyFilter::Equals("character".into()));
    let indices = nf.select_indices(&memo);
    assert_eq!(indices, [2, 3, 4, 5]);

    let nf = NodeFilter::default()
        .with_node_type(NodeType::Data)
        .with_key(KeyFilter::Equals("author".into()));
    let indices = nf.select_indices(&memo);
    assert_eq!(indices, [1]);
}

#[test]
fn test_default_node_filter() {
    let nf = NodeFilter {
        node_type: NodeType::Header,
        ..Default::default()
    };
    assert_eq!(nf.node_type, NodeType::Header);
    assert_eq!(nf.key, KeyFilter::Any);
    assert_eq!(nf.value, ValueFilter::Any);
    assert_eq!(nf.index, IndexFilter::Any);
}

#[test]
fn test_index_range() {
    let filter = IndexFilter::Range(2, 5);
    assert_eq!(filter.check(0), false);
    assert_eq!(filter.check(1), false);
    assert_eq!(filter.check(2), true);
    assert_eq!(filter.check(3), true);
    assert_eq!(filter.check(4), true);
    assert_eq!(filter.check(5), true);
    assert_eq!(filter.check(6), false);
}

#[test]
fn index_rebasing() {
    // data nodes: author=A (1), character=B (2), C (3), D (4), E (5)
    let memo = Memo::new("book", "T")
        .with(Node::new("author", Value::from_text("A")))
        .with(Node::new("character", Value::from_text("B")))
        .with(Node::new("character", Value::from_text("C")))
        .with(Node::new("character", Value::from_text("D")))
        .with(Node::new("character", Value::from_text("E")));

    let nf = NodeFilter::default().with_key(KeyFilter::Equals("character".into()));
    assert_eq!(nf.select_indices(&memo), [2, 3, 4, 5]);

    // positions re-base after the key test: range 1..=2 of the
    // character occurrences picks the 2nd and 3rd of them (C and D)
    let nf = NodeFilter::default()
        .with_key(KeyFilter::Equals("character".into()))
        .with_index(IndexFilter::Range(1, 2));
    assert_eq!(nf.select_indices(&memo), [3, 4]);
}

#[test]
fn and_of_exists() {
    let both = Memo::new("book", "T")
        .with(Node::new("author", Value::from_text("A")))
        .with(Node::new("character", Value::from_text("B")));
    let author_only = Memo::new("book", "T")
        .with(Node::new("author", Value::from_text("A")));
    let character_only = Memo::new("book", "T")
        .with(Node::new("character", Value::from_text("B")));

    let mut mf = MemoFilter::new();
    mf.add(NodeFilter::default().with_node_type(NodeType::Data).with_key(KeyFilter::Equals(
        "author".into(),
    )));
    mf.add(NodeFilter::default().with_node_type(NodeType::Data).with_key(KeyFilter::Equals(
        "character".into(),
    )));

    assert!(mf.check(&both));
    assert!(!mf.check(&author_only));
    assert!(!mf.check(&character_only));
}

#[test]
fn extend_conjoins() {
    let memo = Memo::new("book", "T")
        .with(Node::new("author", Value::from_text("A")))
        .with(Node::new("character", Value::from_text("B")));

    let mut a = MemoFilter::new().and(
        NodeFilter::default().with_key(KeyFilter::Equals("author".into())),
    );
    let b = MemoFilter::new().and(
        NodeFilter::default().with_key(KeyFilter::Equals("tag".into())),
    );
    assert!(a.check(&memo));
    assert!(!b.check(&memo));
    a.extend(b);
    assert!(!a.check(&memo));
}

#[test]
fn select_indices_unions() {
    let memo = Memo::new("book", "T")
        .with(Node::new("author", Value::from_text("A")))
        .with(Node::new("character", Value::from_text("B")))
        .with(Node::new("tag", Value::from_text("x")));

    let mut mf = MemoFilter::new();
    mf.add(NodeFilter::default().with_key(KeyFilter::Equals("author".into())));
    mf.add(NodeFilter::default().with_key(KeyFilter::Equals("tag".into())));
    assert_eq!(mf.select_indices(&memo), [1, 3]);
}

#[test]
fn key_filter_variants() {
    let mr_key: String = "mr:filter".into();
    let plain_key: String = "author".into();
    assert!(KeyFilter::StartsWith("mr:".into()).check(&mr_key));
    assert!(!KeyFilter::StartsWith("mr:".into()).check(&plain_key));
    assert!(!KeyFilter::StartsNotWith("mr:".into()).check(&mr_key));
    assert!(KeyFilter::StartsNotWith("mr:".into()).check(&plain_key));
    assert!(!KeyFilter::Not(Box::new(KeyFilter::Equals("author".into()))).check(&plain_key));
    assert!(KeyFilter::Not(Box::new(KeyFilter::Equals("tag".into()))).check(&plain_key));
}

#[test]
fn value_filter_numeric() {
    let five = ValueFilter::MoreThan(5.0f32.to_bits());
    assert!(five.check(&Value::Float(8.0f32.to_bits())));
    assert!(!five.check(&Value::Float(3.2f32.to_bits())));
    assert!(five.check(&Value::Integer(6)));
    assert!(five.check(&Value::Text("6.5".into())));
    assert!(!five.check(&Value::Text("n/a".into())));
    assert!(!five.check(&Value::Bool(true)));

    let most = ValueFilter::AtMost(5.0f32.to_bits());
    assert!(most.check(&Value::Integer(5)));
    assert!(!most.check(&Value::Integer(6)));

    let least = ValueFilter::AtLeast(5.0f32.to_bits());
    assert!(least.check(&Value::Integer(5)));
    assert!(!least.check(&Value::Integer(4)));

    let less = ValueFilter::LessThan(5.0f32.to_bits());
    assert!(less.check(&Value::Integer(4)));
    assert!(!less.check(&Value::Integer(5)));
}

#[test]
fn value_filter_text() {
    assert!(ValueFilter::Equals("blue".into()).check(&Value::Text("blue".into())));
    assert!(!ValueFilter::Equals("blue".into()).check(&Value::Text("red".into())));
    assert!(ValueFilter::Equals("42".into()).check(&Value::Integer(42)));
    assert!(ValueFilter::Equals("true".into()).check(&Value::Bool(true)));
    assert!(ValueFilter::Contains("lue".into()).check(&Value::Text("blue".into())));
    assert!(!ValueFilter::Contains("red".into()).check(&Value::Text("blue".into())));
    assert!(ValueFilter::Contains("b".into()).check(&Value::MultiLineText("a\nb".into(), "EOF".into())));
    assert!(!ValueFilter::Contains("4".into()).check(&Value::Integer(42)));
}

#[test]
fn filter_stats() {
    let memos = vec![
        Memo::new("book", "A").with(Node::new("author", Value::from_text("X"))),
        Memo::new("book", "B"),
        Memo::new("author", "X"),
    ];
    let all = MemoFilter::new();
    assert_eq!(all.stats(&memos), (3, 4));

    let mut only_books = MemoFilter::new();
    only_books.add(
        NodeFilter::default()
            .with_node_type(NodeType::Header)
            .with_key(KeyFilter::Equals("book".into())),
    );
    assert_eq!(only_books.stats(&memos), (2, 3));
}
