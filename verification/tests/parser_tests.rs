use merula::memo::Memo;
use merula::node::Node;
use merula::parser::{
    determine_import_path, parse_memos, rule_data_multinode, rule_data_multinode_eof,
    rule_data_multinode_ml, rule_data_node, rule_data_node_eof, rule_data_node_ml,
    rule_header_node, rule_header_node_eof, rule_header_node_ml, rule_memo, rule_memos,
    MemoParser,
};
use merula::value::Value;

#[test]
fn parse_header() {
    // testing is very limited, just check if it is valid or not
    assert!(MemoParser::header_ok("@foo bar"));
    assert!(MemoParser::header_ok("@foo"));
    assert!(!MemoParser::header_ok(".foo"));
}

#[test]
fn test_fn_rule_data_node_eof() {
    let input = ".color<<EOF\nblue\nEOF";
    let node = rule_data_node_eof(input);
    assert_eq!(node, Ok(Node::new("color", Value::from_text("blue"))));
}

#[test]
fn test_fn_rule_data_node() {
    let input = ".color blue";
    let node = rule_data_node(input);
    assert_eq!(node, Ok(Node::new("color", Value::from_text("blue"))));
}

#[test]
fn test_fn_rule_data_multinode_ml() {
    let input = ".color, blue, red";
    let nodes = rule_data_multinode_ml(input);
    let expected = vec![
        Node::new("color", Value::from_text("blue")),
        Node::new("color", Value::from_text("red")),
    ];
    assert_eq!(nodes, Ok(expected));

    let input = ".color|\nblue\nred";
    let nodes = rule_data_multinode_ml(input);
    let expected = vec![
        Node::new("color", Value::from_text("blue")),
        Node::new("color", Value::from_text("red")),
    ];
    assert_eq!(nodes, Ok(expected));
}

#[test]
fn test_fn_rule_data_multinode_eof() {
    let input = ".color,<<EOF\nblue, red\nEOF";
    let nodes = rule_data_multinode_eof(input);
    let expected = vec![
        Node::new("color", Value::from_text("blue")),
        Node::new("color", Value::from_text("red")),
    ];
    assert_eq!(nodes, Ok(expected));

    let input = ".color|<<EOF\nblue\nred\nEOF";
    let nodes = rule_data_multinode_eof(input);
    let expected = vec![
        Node::new("color", Value::from_text("blue")),
        Node::new("color", Value::from_text("red")),
    ];
    assert_eq!(nodes, Ok(expected));
}

#[test]
fn test_fn_rule_data_multinode() {
    let input = ".color, blue, red";
    let nodes = rule_data_multinode(input);
    let expected = vec![
        Node::new("color", Value::from_text("blue")),
        Node::new("color", Value::from_text("red")),
    ];
    assert_eq!(nodes, Ok(expected));
}

#[test]
fn test_fn_rule_header_node_eof() {
    let input = "@color<<EOF\nblue\nEOF";
    let node = rule_header_node_eof(input);
    assert_eq!(node, Ok(Node::new("color", Value::from_text("blue"))));
}

#[test]
fn test_fn_rule_data_node_ml() {
    let input = r#".color blue"#;
    let node = rule_data_node_ml(input);
    assert_eq!(node, Ok(Node::new("color", Value::from_text("blue"))));

    let input = ".colors blue\nred";
    let node = rule_data_node_ml(input);
    assert_eq!(node, Ok(Node::new("colors", Value::from_text("blue\nred"))));

    let input = ".colors blue\nred\n+tag foo";
    let node = rule_data_node_ml(input);
    let expected = Node::new("colors", Value::from_text("blue\nred"))
        .with_attr("tag", Value::from_text("foo"));
    assert_eq!(node, Ok(expected));
}

#[test]
fn test_fn_rule_header_node_ml() {
    let input = r#"@color blue"#;
    let node = rule_header_node_ml(input);
    assert_eq!(node, Ok(Node::new("color", Value::from_text("blue"))));

    let input = "@colors blue\nred";
    let node = rule_header_node_ml(input);
    assert_eq!(node, Ok(Node::new("colors", Value::from_text("blue\nred"))));
}

#[test]
fn test_fn_rule_memo() {
    let input = "@book The Lord of the Rings";
    let memo = rule_memo(input);
    let expect = Memo::new("book", "The Lord of the Rings");
    assert_eq!(memo, Ok(expect));

    let input = "@book The Lord of the Rings\n.author Tolkien";
    let memo = rule_memo(input);
    let expect = Memo::new("book", "The Lord of the Rings")
        .with(Node::new("author", Value::from_text("Tolkien")));
    assert_eq!(memo, Ok(expect));

    let input = "@book The Lord of the Rings\n.author Tolkien\n.character, Frodo,Samweis";
    let memo = rule_memo(input);
    let expect = Memo::new("book", "The Lord of the Rings")
        .with(Node::new("author", Value::from_text("Tolkien")))
        .with(Node::new("character", Value::from_text("Frodo")))
        .with(Node::new("character", Value::from_text("Samweis")));
    assert_eq!(memo, Ok(expect));
}

#[test]
fn test_fn_rule_memos() {
    let input = "@book The Lord of the Rings\n@book The Hobbit";
    let memos = rule_memos(input);
    let expect = vec![
        Memo::new("book", "The Lord of the Rings"),
        Memo::new("book", "The Hobbit"),
    ];
    assert_eq!(memos, Ok(expect));

    let input = "@book The Lord of the Rings\n\n\n@book The Hobbit";
    let memos = rule_memos(input);
    let expect = vec![
        Memo::new("book", "The Lord of the Rings"),
        Memo::new("book", "The Hobbit"),
    ];
    assert_eq!(memos, Ok(expect));

    let input = "@book The Lord of the Rings\n.author Tolkien\n\n\n@book The Hobbit";
    let memos = rule_memos(input);
    let expect = vec![
        Memo::new("book", "The Lord of the Rings")
            .with(Node::new("author", Value::from_text("Tolkien"))),
        Memo::new("book", "The Hobbit"),
    ];
    assert_eq!(memos, Ok(expect));

    let input = "# a sample file\n@book The Lord of the Rings\n.author Tolkien\n\n\n@book The Hobbit";
    let memos = rule_memos(input);
    let expect = vec![
        Memo::new("book", "The Lord of the Rings")
            .with(Node::new("author", Value::from_text("Tolkien"))),
        Memo::new("book", "The Hobbit"),
    ];
    assert_eq!(memos, Ok(expect));

    let input = "# a sample file\n@book The Lord of the Rings\n.author Tolkien\n+source Wikipedia\n\n@book The Hobbit";
    let memos = rule_memos(input);
    let expect = vec![
        Memo::new("book", "The Lord of the Rings")
            .with(Node::new("author", Value::from_text("Tolkien")))
            .with_attr("source", Value::from_text("Wikipedia")),
        Memo::new("book", "The Hobbit"),
    ];
    assert_eq!(memos, Ok(expect));
}

#[test]
fn header_precedence() {
    let memos = parse_memos("@book Title\n.author X", true);
    assert_eq!(memos.len(), 1);
    assert_eq!(memos[0].collection(), "book");
    assert_eq!(memos[0].title(), "Title");
    assert_eq!(memos[0].data_count(), 1);
    assert_eq!(memos[0].data()[0].key, "author");
}

#[test]
fn multi_value_split() {
    let memos = parse_memos("@palette P\n.color, blue, red", true);
    assert_eq!(memos.len(), 1);
    let data = memos[0].data();
    assert_eq!(data.len(), 2);
    assert_eq!(data[0].key, "color");
    assert_eq!(data[0].value, Value::from_text("blue"));
    assert_eq!(data[1].key, "color");
    assert_eq!(data[1].value, Value::from_text("red"));
}

#[test]
fn attrs_apply_to_all_siblings() {
    let memos = parse_memos("@palette P\n.color, blue, red\n+tag primary", true);
    let data = memos[0].data();
    assert_eq!(data.len(), 2);
    assert_eq!(data[0].get_attr("tag").unwrap(), &Value::from_text("primary"));
    assert_eq!(data[1].get_attr("tag").unwrap(), &Value::from_text("primary"));
}

#[test]
fn delimited_values() {
    let memos = parse_memos("@book T\n.quote<<END\nline one\nline two\nEND\n.next x", true);
    let data = memos[0].data();
    assert_eq!(data.len(), 2);
    assert_eq!(
        data[0].value,
        Value::MultiLineText("line one\nline two".into(), "END".into())
    );
    assert_eq!(data[1].key, "next");
}

#[test]
fn lenient_parsing_skips_bad_lines() {
    // a line matching no form is skipped without corrupting records
    let memos = parse_memos("@book T\n.1bad x\n.author Tolkien", true);
    assert_eq!(memos.len(), 1);
    assert_eq!(memos[0].data_count(), 1);
    assert_eq!(memos[0].data()[0].key, "author");
}

#[test]
fn content_before_first_header_is_dropped() {
    let memos = parse_memos("stray content\n@book T", true);
    assert_eq!(memos.len(), 1);
    assert_eq!(memos[0].collection(), "book");

    // without dropping, the implicit record is visible
    let memos = parse_memos("stray content\n@book T", false);
    assert_eq!(memos.len(), 2);
    assert_eq!(memos[0].collection(), "mr:default");
}

#[test]
fn parse_idempotent() {
    let input = "# sample\n@book The Lord of the Rings\n.author Tolkien\n+source Wikipedia\n.character, Frodo, Sam\n\n@book The Hobbit\n.quote<<END\nIn a hole\nEND";
    let first = parse_memos(input, true);
    let second = parse_memos(input, true);
    assert_eq!(first.len(), second.len());
    for (a, b) in first.iter().zip(second.iter()) {
        assert_eq!(a, b);
    }
}

#[test]
fn import_path_resolution() {
    assert_eq!(determine_import_path("data/main.mr", "extra.mr"), "data/extra.mr");
    assert_eq!(determine_import_path("main.mr", "extra.mr"), "extra.mr");
    assert_eq!(determine_import_path("/a/b/main.mr", "extra.mr"), "/a/b/extra.mr");
    assert_eq!(determine_import_path("data/main.mr", "/abs/extra.mr"), "/abs/extra.mr");
}

#[test]
fn delimited_block_keeps_token_lines() {
    // until the delimiter line, every line is content, whatever it
    // looks like
    let memos = parse_memos("@book T\n.quote<<END\n@not a header\n.nor a node\n\nEND", true);
    let data = memos[0].data();
    assert_eq!(data.len(), 1);
    assert_eq!(
        data[0].value,
        Value::MultiLineText("@not a header\n.nor a node".into(), "END".into())
    );
    assert_eq!(memos.len(), 1);
}

#[test]
fn plain_continuation_builds_multiline_values() {
    let memos = parse_memos("@book T\n.notes first\nsecond", true);
    let data = memos[0].data();
    assert_eq!(
        data[0].value,
        Value::MultiLineText("first\nsecond".into(), "EOF".into())
    );

    // a comment line closes a continuing value
    let memos = parse_memos("@book T\n.notes first\n# comment\nsecond", true);
    let data = memos[0].data();
    assert_eq!(data[0].value, Value::Text("first".into()));

    // a blank line closes it too
    let memos = parse_memos("@book T\n.notes first\n\nsecond", true);
    let data = memos[0].data();
    assert_eq!(data[0].value, Value::Text("first".into()));
}

#[test]
fn pipe_splits_on_newlines() {
    let memos = parse_memos("@palette P\n.color|\nblue\nred", true);
    let data = memos[0].data();
    assert_eq!(data.len(), 2);
    assert_eq!(data[0].value, Value::from_text("blue"));
    assert_eq!(data[1].value, Value::from_text("red"));
}

#[test]
fn header_attrs() {
    let memos = parse_memos("@book T\n+edition first", true);
    assert_eq!(memos[0].data_count(), 0);
    assert_eq!(
        memos[0].header().get_attr("edition").unwrap(),
        &Value::from_text("first")
    );
}

#[test]
fn empty_segments_are_skipped() {
    let memos = parse_memos("@palette P\n.color, blue,, red,", true);
    let data = memos[0].data();
    assert_eq!(data.len(), 2);
    assert_eq!(data[0].value, Value::from_text("blue"));
    assert_eq!(data[1].value, Value::from_text("red"));
}
