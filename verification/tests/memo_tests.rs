use merula::memo::Memo;
use merula::node::Node;
use merula::value::Value;

fn sample_memo() -> Memo {
    let mut memo = Memo::new("book", "The Lord of the Rings");
    memo.push(Node::new("author", Value::from_text("J.R.R. Tolkien")));
    memo.push(Node::new("character", Value::from_text("Bilbo Baggins")));
    memo.push(Node::new("character", Value::from_text("Samweis Gamdschie")));
    memo
}

#[test]
fn check_header() {
    let memo = sample_memo();
    assert_eq!(memo.collection(), "book");
    assert_eq!(memo.title(), "The Lord of the Rings");
}

#[test]
fn check_data() {
    let memo = sample_memo();
    let node = &memo.data()[0];
    assert_eq!(node.key, "author");
    assert_eq!(node.value, Value::from_text("J.R.R. Tolkien"));
}

#[test]
fn data_count() {
    let memo = sample_memo();
    assert_eq!(memo.data_count(), 3);
}

#[test]
fn builder_pattern() {
    let memo1 = Memo::new("book", "The Lord of the Rings")
        .with(Node::new("author", Value::from_text("J.R.R. Tolkien")))
        .with(Node::new("character", Value::from_text("Samweis Gamdschie")));

    let mut memo2 = Memo::new("book", "The Lord of the Rings");
    memo2.push(Node::new("author", Value::from_text("J.R.R. Tolkien")));
    memo2.push(Node::new("character", Value::from_text("Samweis Gamdschie")));

    assert_eq!(memo1.title(), memo2.title());
    assert_eq!(memo1.collection(), memo2.collection());

    for (node1, node2) in memo1.data().iter().zip(memo2.data().iter()) {
        assert_eq!(node1.key, node2.key);
        assert_eq!(node1.value, node2.value);
    }
}

#[test]
fn partial_eq() {
    let mut memo1 = Memo::new("book", "The Lord of the Rings")
        .with(Node::new("author", Value::from_text("J.R.R. Tolkien")));

    let memo2 = Memo::new("book", "The Lord of the Rings")
        .with(Node::new("author", Value::from_text("J.R.R. Tolkien")));

    assert_eq!(memo1, memo2);

    memo1.push(Node::new("character", Value::from_text("Bilbo Baggins")));
    assert_ne!(memo1, memo2);

    let mut memo1 = Memo::new("book", "The Lord of the Rings")
        .with(Node::new("author", Value::from_text("J.R.R. Tolkien")));

    let mut memo2 = Memo::new("book", "The Lord of the Rings")
        .with(Node::new("author", Value::from_text("J.R.R. Tolkien")));

    memo1.push(Node::new("character", Value::from_text("Samweis Gamdschie")));
    memo2.push(Node::new("character", Value::from_text("Frodo Baggins")));

    assert_ne!(memo1, memo2);

    let mut memo1 = Memo::new("book", "The Lord of the Rings");
    let mut memo2 = Memo::new("book", "The Lord of the Rings");

    memo1.push(Node::new("character", Value::from_text("Frodo Baggins")));
    memo2.push(Node::new("character", Value::from_text("Frodo Baggins")));

    assert_eq!(memo1, memo2);
}

#[test]
fn round_trip_construction() {
    // a record built from a header plus N data nodes has
    // data_count() == N and N + 1 nodes in all
    let n = 5;
    let mut memo = Memo::new("book", "T");
    for i in 0..n {
        memo.push(Node::new("character", Value::from_int(i)));
    }
    assert_eq!(memo.data_count(), n as usize);
    assert_eq!(memo.nodes().len(), n as usize + 1);
}

#[test]
fn id_depends_on_header_only() {
    let a = Memo::new("book", "The Hobbit")
        .with(Node::new("author", Value::from_text("J.R.R. Tolkien")));
    let b = Memo::new("book", "The Hobbit")
        .with(Node::new("tag", Value::from_text("fantasy")));
    let c = Memo::new("book", "Silmarillion");
    assert_eq!(a.id(), b.id());
    assert_ne!(a.id(), c.id());
}

#[test]
fn get_and_contains() {
    let memo = sample_memo();
    assert!(memo.contains_key("author"));
    assert!(memo.contains_key("book"));
    assert!(!memo.contains_key("tag"));
    assert_eq!(memo.get("character").unwrap().value, Value::from_text("Bilbo Baggins"));
    assert!(memo.get("tag").is_none());
    assert_eq!(memo.get_vec("character").len(), 2);
    assert_eq!(memo.get_by_index(0).unwrap().key, "book");
    assert!(memo.get_by_index(9).is_none());
    assert!(!memo.is_empty());
    assert!(Memo::new("book", "T").is_empty());
    assert_eq!(memo.last().value, Value::from_text("Samweis Gamdschie"));
}

#[test]
fn attrs_on_nodes() {
    let memo = Memo::new("book", "T")
        .with(Node::new("author", Value::from_text("Tolkien")))
        .with_attr("source", Value::from_text("Wikipedia"));
    let node = &memo.data()[0];
    assert_eq!(node.attrs.len(), 1);
    assert_eq!(node.attrs[0].0, "source");
    assert_eq!(node.attrs[0].1, Value::from_text("Wikipedia"));
    assert_eq!(
        node.get_attr("source").unwrap(),
        &Value::from_text("Wikipedia")
    );
}
