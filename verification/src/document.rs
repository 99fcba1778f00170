//! A TOML document as a tree of plain values, and the parser that makes one
//! out of a text.

use crate::nesting::{nesting, nesting_within, NESTING_LIMIT};
use crate::table::{holds_key, place_of};
use crate::text::{text_order, TextOrder};
use vstd::prelude::*;

verus! {

/// A value of a TOML document. A table keeps its entries in the order in which
/// the parser handed them out. No setting of the configuration is a float or a
/// date, so of those only the kind is kept.
#[derive(Debug, PartialEq, Eq)]
pub enum Node {
    Text(String),
    Integer(i64),
    Float,
    Boolean(bool),
    Datetime,
    List(Vec<Node>),
    Table(Vec<(String, Node)>),
}

/// What a `Node` stands for.
pub enum Tree {
    Text(Seq<char>),
    Integer(int),
    Float,
    Boolean(bool),
    Datetime,
    List(Seq<Tree>),
    Table(Seq<(Seq<char>, Tree)>),
}

impl Node {
    /// What the node stands for.
    pub open spec fn tree(self) -> Tree
        decreases self,
    {
        match self {
            Node::Text(text) => Tree::Text(text@),
            Node::Integer(number) => Tree::Integer(number as int),
            Node::Float => Tree::Float,
            Node::Boolean(flag) => Tree::Boolean(flag),
            Node::Datetime => Tree::Datetime,
            Node::List(items) => Tree::List(
                Seq::new(
                    items@.len(),
                    |i: int|
                        if 0 <= i < items@.len() {
                            items@[i].tree()
                        } else {
                            Tree::Float
                        },
                ),
            ),
            Node::Table(entries) => Tree::Table(
                Seq::new(
                    entries@.len(),
                    |i: int|
                        if 0 <= i < entries@.len() {
                            (entries@[i].0@, entries@[i].1.tree())
                        } else {
                            (Seq::empty(), Tree::Float)
                        },
                ),
            ),
        }
    }
}

impl View for Node {
    type V = Tree;

    open spec fn view(&self) -> Tree {
        self.tree()
    }
}

/// What a list of nodes stands for.
pub open spec fn items_view(items: Seq<Node>) -> Seq<Tree> {
    Seq::new(items.len(), |i: int| items[i]@)
}

/// What the entries of a table stand for.
pub open spec fn entries_view(entries: Seq<(String, Node)>) -> Seq<(Seq<char>, Tree)> {
    Seq::new(entries.len(), |i: int| (entries[i].0@, entries[i].1@))
}

/// A list node stands for the list of what its items stand for.
pub proof fn lemma_list_view(items: Vec<Node>)
    ensures
        Node::List(items)@ == Tree::List(items_view(items@)),
{
    assert(Node::List(items)@->List_0 =~= items_view(items@));
}

/// A table node stands for the table of what its entries stand for.
pub proof fn lemma_table_view(entries: Vec<(String, Node)>)
    ensures
        Node::Table(entries)@ == Tree::Table(entries_view(entries@)),
{
    assert(Node::Table(entries)@->Table_0 =~= entries_view(entries@));
}

/// `toml::Value`, a parsed TOML value.
#[verifier::external_type_specification]
#[verifier::external_body]
pub struct ExTomlValue(toml::Value);

/// `toml::de::Error`, the parser's complaint about a text.
#[verifier::external_type_specification]
#[verifier::external_body]
pub struct ExTomlError(toml::de::Error);

/// What `toml::from_str` makes of a text: the document as a tree, or nothing
/// where the parser rejects the text.
pub uninterp spec fn parsed_document(text: Seq<char>) -> Option<Tree>;

/// What a `toml::Value` holds, as a tree.
pub uninterp spec fn value_tree(value: toml::Value) -> Tree;

/// How deep a `toml::Value` nests: the most arrays and tables that stand inside
/// one another in it, the value itself counted.
pub uninterp spec fn value_depth(value: toml::Value) -> nat;

/// `toml::from_str`, asked for a `toml::Value`. Not proved: that what comes back
/// depends on the text alone, and how deep it nests. It is the value of the
/// document, or an error where the parser rejects the text.
///
/// The parser calls itself once for every array and inline table that stands
/// inside another, and then once more for every level of the value that it
/// builds. A text within the limit keeps both within what a thread's stack
/// holds; no other text is handed to it. The value stands at most one level
/// deep for the document, then twice as deep as a table header measures (a
/// part of a header that names an array of tables stands for two levels), then
/// as deep as a key with its value measures: three times the measure of the
/// text and one.
#[verifier::external_body]
fn parse_toml(text: &str) -> (r: Result<toml::Value, toml::de::Error>)
    requires
        nesting(text@) <= NESTING_LIMIT,
    ensures
        match r {
            Ok(value) => parsed_document(text@) == Some(value_tree(value)) && value_depth(value)
                <= 3 * nesting(text@) + 1,
            Err(_) => parsed_document(text@) is None,
        },
{
    toml::from_str(text)
}

/// Copies a `toml::Value` into a `Node`, variant by variant: strings, integers
/// and booleans with what they hold, floats and dates as their kind, arrays
/// item by item in their order, tables entry by entry in the order in which
/// `toml::map::Map::iter` walks them. Not proved: that the node stands for what
/// the value holds. The copy calls itself once for every level of the value,
/// so the value is no deeper than a text within the limit makes it.
#[verifier::external_body]
fn node_of(value: &toml::Value) -> (node: Node)
    requires
        value_depth(*value) <= 3 * NESTING_LIMIT + 1,
    ensures
        node@ == value_tree(*value),
{
    match value {
        toml::Value::String(text) => Node::Text(text.clone()),
        toml::Value::Integer(number) => Node::Integer(*number),
        toml::Value::Float(_) => Node::Float,
        toml::Value::Boolean(flag) => Node::Boolean(*flag),
        toml::Value::Datetime(_) => Node::Datetime,
        toml::Value::Array(items) => Node::List(items.iter().map(node_of).collect()),
        toml::Value::Table(table) => Node::Table(
            table.iter().map(|(name, item)| (name.clone(), node_of(item))).collect(),
        ),
    }
}

/// `toml::de::Error`'s `Display`: the complaint in words. Nothing is claimed of
/// the words.
#[verifier::external_body]
fn complaint(error: &toml::de::Error) -> String {
    error.to_string()
}

/// Why a text was not parsed into a document.
#[derive(Debug, PartialEq, Eq)]
pub enum DocumentError {
    /// The text nests deeper than `NESTING_LIMIT`. It was not handed to the
    /// parser.
    TooDeep,
    /// The text is not TOML. This is the parser's complaint.
    Syntax(String),
}

/// Parses a text as TOML. A text that nests beyond `NESTING_LIMIT` is refused
/// unparsed; of any other text this gives the document, or else the parser's
/// complaint.
pub fn parse_document(text: &str) -> (r: Result<Node, DocumentError>)
    ensures
        match r {
            Ok(node) => nesting(text@) <= NESTING_LIMIT && parsed_document(text@) == Some(node@),
            Err(DocumentError::TooDeep) => nesting(text@) > NESTING_LIMIT,
            Err(DocumentError::Syntax(_)) => nesting(text@) <= NESTING_LIMIT && parsed_document(
                text@,
            ) is None,
        },
{
    if !nesting_within(text, NESTING_LIMIT) {
        return Err(DocumentError::TooDeep);
    }
    match parse_toml(text) {
        Ok(value) => Ok(node_of(&value)),
        Err(error) => Err(DocumentError::Syntax(complaint(&error))),
    }
}

/// What a table holds under a name.
pub enum Lookup {
    /// No entry has the name.
    Absent,
    /// One entry has the name, and this is its value.
    Present(Tree),
    /// Several entries have the name.
    Repeated,
}

/// The entry of `entries` at place `at` has the name `name`.
pub open spec fn named_at(entries: Seq<(Seq<char>, Tree)>, name: Seq<char>, at: int) -> bool {
    0 <= at < entries.len() && entries[at].0 == name
}

/// What `entries` hold under `name`.
pub open spec fn lookup(entries: Seq<(Seq<char>, Tree)>, name: Seq<char>) -> Lookup {
    if !holds_key(entries, name) {
        Lookup::Absent
    } else if exists|i: int, j: int|
        i != j && named_at(entries, name, i) && named_at(entries, name, j) {
        Lookup::Repeated
    } else {
        Lookup::Present(entries[place_of(entries, name)].1)
    }
}

/// What a table was found to hold under a name.
pub enum Found<'a> {
    Absent,
    Present(&'a Node),
    Repeated,
}

impl<'a> View for Found<'a> {
    type V = Lookup;

    open spec fn view(&self) -> Lookup {
        match self {
            Found::Absent => Lookup::Absent,
            Found::Present(node) => Lookup::Present(node@),
            Found::Repeated => Lookup::Repeated,
        }
    }
}

/// Looks a name up among the entries of a table.
pub fn find<'a>(entries: &'a Vec<(String, Node)>, name: &str) -> (found: Found<'a>)
    ensures
        found@ == lookup(entries_view(entries@), name@),
{
    let ghost all = entries_view(entries@);
    let mut found: Found<'a> = Found::Absent;
    let ghost mut first: int = 0;
    let mut at: usize = 0;
    while at < entries.len()
        invariant
            at <= entries@.len(),
            all == entries_view(entries@),
            found is Absent ==> forall|i: int| 0 <= i < at ==> !named_at(all, name@, i),
            found matches Found::Present(node) ==> 0 <= first < at && named_at(all, name@, first)
                && node@ == all[first].1 && forall|i: int|
                0 <= i < at && named_at(all, name@, i) ==> i == first,
            found is Repeated ==> exists|i: int, j: int|
                i != j && named_at(all, name@, i) && named_at(all, name@, j),
        decreases entries@.len() - at,
    {
        let entry = &entries[at];
        assert(all[at as int].0 == entry.0@ && all[at as int].1 == entry.1@);
        match text_order(entry.0.as_str(), name) {
            TextOrder::Same => {
                match found {
                    Found::Absent => {
                        found = Found::Present(&entry.1);
                        proof {
                            first = at as int;
                        }
                    },
                    Found::Present(_) => {
                        assert(named_at(all, name@, first) && named_at(all, name@, at as int));
                        found = Found::Repeated;
                    },
                    Found::Repeated => {},
                }
            },
            _ => {},
        }
        at = at + 1;
    }
    proof {
        match found {
            Found::Absent => {
                assert(!holds_key(all, name@)) by {
                    if holds_key(all, name@) {
                        let i = place_of(all, name@);
                        assert(named_at(all, name@, i));
                    }
                }
            },
            Found::Present(_) => {
                assert(named_at(all, name@, first));
                assert(holds_key(all, name@));
                let i = place_of(all, name@);
                assert(named_at(all, name@, i));
            },
            Found::Repeated => {
                let (i, j) = choose|i: int, j: int|
                    i != j && named_at(all, name@, i) && named_at(all, name@, j);
                assert(named_at(all, name@, i));
                assert(holds_key(all, name@));
            },
        }
    }
    found
}

} // verus!
