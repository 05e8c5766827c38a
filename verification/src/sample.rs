//! A small fixed set of sample records, useful for trying out filters
//! and queries.

use vstd::prelude::*;
use crate::memo::Memo;
use crate::node::Node;
use crate::value::Value;

verus! {

/// Twelve sample records: two books with their authors and a cast of
/// characters.
pub fn setup_memos() -> (r: Vec<Memo>)
    ensures
        r@.len() == 12,
        r@[0]@[0].key == "book"@,
        r@[0]@.len() == 8,
        r@[8]@[0].key == "book"@,
{
    let mut memos: Vec<Memo> = Vec::new();

    let memo = Memo::new("book", "The Lord of the Rings").with(
        Node::new("author", Value::from_text("J.R.R. Tolkien")),
    ).with(Node::new("character", Value::from_text("Bilbo Baggins"))).with(
        Node::new("character", Value::from_text("Samweis Gamdschie")),
    ).with(Node::new("character", Value::from_text("Frodo Baggins"))).with(
        Node::new("character", Value::from_text("Aragorn")),
    ).with(Node::new("character", Value::from_text("Legolas"))).with(
        Node::new("character", Value::from_text("Galadriel")),
    );
    memos.push(memo);

    let memo = Memo::new("author", "J.R.R. Tolkien").with(
        Node::new("birthday", Value::from_text("1892-01-03")),
    );
    memos.push(memo);

    let memo = Memo::new("character", "Bilbo Baggins").with(
        Node::new("species", Value::from_text("hobbit")),
    ).with(Node::new("friend-of", Value::from_text("Samweis Gamdschie"))).with(
        Node::new("is-hobbit", Value::from_bool(true)),
    );
    memos.push(memo);

    let memo = Memo::new("character", "Samwise Gamgee").with(
        Node::new("is-hobbit", Value::from_bool(true)),
    ).with(Node::new("species", Value::from_text("hobbit")));
    memos.push(memo);

    let memo = Memo::new("character", "Frodo Baggins").with(
        Node::new("species", Value::from_text("hobbit")),
    );
    memos.push(memo);

    let memo = Memo::new("character", "Aragorn").with(
        Node::new("species", Value::from_text("men")),
    );
    memos.push(memo);

    let memo = Memo::new("character", "Legolas").with(
        Node::new("species", Value::from_text("sindar elf")),
    ).with(Node::new("gender", Value::from_text("male")));
    memos.push(memo);

    let memo = Memo::new("character", "Galadriel").with(
        Node::new("species", Value::from_text("elves")),
    ).with(Node::new("gender", Value::from_text("female")));
    memos.push(memo);

    let memo = Memo::new("book", "The Hitchhiker's Guide to the Galaxy").with(
        Node::new("author", Value::from_text("Douglas Adams")),
    ).with(Node::new("character", Value::from_text("Arthur Dent"))).with(
        Node::new("character", Value::from_text("Ford Prefect")),
    );
    memos.push(memo);

    let memo = Memo::new("author", "Douglas Adams").with(
        Node::new("birthday", Value::from_text("1952-03-11")),
    );
    memos.push(memo);

    let memo = Memo::new("character", "Arthur Dent").with(
        Node::new("gender", Value::from_text("male")),
    ).with(Node::new("species", Value::from_text("human"))).with(
        Node::new("occupation", Value::from_text("BBC Radio employee")),
    );
    memos.push(memo);

    let memo = Memo::new("character", "Ford Prefect").with(
        Node::new("gender", Value::from_text("male")),
    ).with(Node::new("species", Value::from_text("betelgeusian"))).with(
        Node::new(
            "occupation",
            Value::from_text("Researcher for the Hitchhiker's Guide to the Galaxy"),
        ),
    );
    memos.push(memo);

    memos
}

} // verus!
