//! A TOML document as a tree of plain values, and the descent along a key
//! path into its nested tables.

use vstd::prelude::*;
use crate::error::{Error, ErrorView};
use crate::text::str_eq;

verus! {

/// One entry of a table: a key and the value under it.
#[derive(Debug, PartialEq, Eq)]
pub struct TomlEntry {
    pub key: String,
    pub value: TomlNode,
}

/// A TOML value. Floats and datetimes carry no payload: nothing here reads it.
#[derive(Debug, PartialEq, Eq)]
pub enum TomlNode {
    String(String),
    Integer(i64),
    Float,
    Boolean(bool),
    Datetime,
    Array(Vec<TomlNode>),
    Table(Vec<TomlEntry>),
}

/// The mathematical value of a [`TomlNode`].
pub enum TomlTree {
    String(Seq<char>),
    Integer(int),
    Float,
    Boolean(bool),
    Datetime,
    Array(Seq<TomlTree>),
    Table(Seq<(Seq<char>, TomlTree)>),
}

/// The tree of a node: the same shape, with strings as sequences of
/// characters and vectors as sequences.
pub open spec fn tree_of(node: TomlNode) -> TomlTree
    decreases node,
{
    match node {
        TomlNode::String(s) => TomlTree::String(s@),
        TomlNode::Integer(i) => TomlTree::Integer(i as int),
        TomlNode::Float => TomlTree::Float,
        TomlNode::Boolean(b) => TomlTree::Boolean(b),
        TomlNode::Datetime => TomlTree::Datetime,
        TomlNode::Array(items) => TomlTree::Array(
            Seq::new(items.len() as nat, |i: int| if 0 <= i < items.len() { tree_of(items[i]) } else { TomlTree::Float }),
        ),
        TomlNode::Table(entries) => TomlTree::Table(
            Seq::new(
                entries.len() as nat,
                |i: int| if 0 <= i < entries.len() { (entries[i].key@, tree_of(entries[i].value)) } else { (Seq::empty(), TomlTree::Float) },
            ),
        ),
    }
}

impl View for TomlNode {
    type V = TomlTree;

    open spec fn view(&self) -> TomlTree {
        tree_of(*self)
    }
}

/// The tree of a table, entry by entry.
pub proof fn lemma_table_tree(entries: Vec<TomlEntry>)
    ensures
        TomlNode::Table(entries)@ is Table,
        TomlNode::Table(entries)@->Table_0.len() == entries.len(),
        forall|i: int| 0 <= i < entries.len() ==> #[trigger] TomlNode::Table(entries)@->Table_0[i] == (entries[i].key@, entries[i].value@),
{
}

/// The tree of an array, item by item.
pub proof fn lemma_array_tree(items: Vec<TomlNode>)
    ensures
        TomlNode::Array(items)@ is Array,
        TomlNode::Array(items)@->Array_0.len() == items.len(),
        forall|i: int| 0 <= i < items.len() ==> #[trigger] TomlNode::Array(items)@->Array_0[i] == items[i]@,
{
}

/// The TOML parser's value type, carried from the parser to the conversion.
#[verifier::external_type_specification]
#[verifier::external_body]
pub struct ExTomlValue(toml::Value);

/// What the TOML parser makes of a text: the tree of the document, or `None`
/// where the text is not a TOML document.
pub uninterp spec fn parsed_toml(text: Seq<char>) -> Option<TomlTree>;

/// The tree that a parser value holds.
pub uninterp spec fn value_tree(value: toml::Value) -> TomlTree;

/// Calls `toml::from_str` for a `toml::Value`. The parser succeeds exactly on
/// the texts that are TOML documents, and the value it gives holds the tree
/// of the document. A failure comes back as the parser's report.
#[verifier::external_body]
fn parse_value(text: &str) -> (parsed: Result<toml::Value, String>)
    ensures
        parsed matches Ok(value) ==> parsed_toml(text@) == Some(value_tree(value)),
        parsed is Err ==> parsed_toml(text@) is None,
{
    match toml::from_str::<toml::Value>(text) {
        Ok(value) => Ok(value),
        Err(error) => Err(error.to_string()),
    }
}

/// Copies a `toml::Value` into a [`TomlNode`], variant by variant; the
/// entries of a table come in the order in which the table yields them.
#[verifier::external_body]
fn node_of_value(value: &toml::Value) -> (node: TomlNode)
    ensures
        node@ == value_tree(*value),
{
    match value {
        toml::Value::String(s) => TomlNode::String(s.clone()),
        toml::Value::Integer(i) => TomlNode::Integer(*i),
        toml::Value::Float(_) => TomlNode::Float,
        toml::Value::Boolean(b) => TomlNode::Boolean(*b),
        toml::Value::Datetime(_) => TomlNode::Datetime,
        toml::Value::Array(items) => TomlNode::Array(items.iter().map(node_of_value).collect()),
        toml::Value::Table(table) => TomlNode::Table(
            table.iter().map(|(k, v)| TomlEntry { key: k.clone(), value: node_of_value(v) }).collect(),
        ),
    }
}

/// Parse a text as a TOML document.
pub fn parse_toml(text: &str) -> (parsed: Result<TomlNode, Error>)
    ensures
        parsed matches Ok(node) ==> parsed_toml(text@) == Some(node@),
        parsed matches Err(error) ==> parsed_toml(text@) is None && error@ == ErrorView::TomlDecode,
{
    match parse_value(text) {
        Ok(value) => Ok(node_of_value(&value)),
        Err(message) => Err(Error::TomlDecode { message }),
    }
}

/// The value under the first entry of a table that has the key.
pub open spec fn table_get(entries: Seq<(Seq<char>, TomlTree)>, key: Seq<char>) -> Option<TomlTree>
    decreases entries.len(),
{
    if entries.len() == 0 {
        None
    } else if entries[0].0 == key {
        Some(entries[0].1)
    } else {
        table_get(entries.drop_first(), key)
    }
}

/// Where a descent along `keys` from `tree` ends. Each key asks for a table
/// that holds it; after the last key the value found is the result.
pub open spec fn descend_spec(tree: TomlTree, keys: Seq<Seq<char>>, path: Seq<char>) -> Result<TomlTree, ErrorView>
    decreases keys.len(),
{
    if keys.len() == 0 {
        Ok(tree)
    } else {
        match tree {
            TomlTree::Table(entries) => match table_get(entries, keys[0]) {
                Some(value) => descend_spec(value, keys.drop_first(), path),
                None => Err(ErrorView::KeysNotFound { keys: keys[0], path }),
            },
            _ => Err(ErrorView::ValueIsNotTable { path }),
        }
    }
}

/// Entries without the key before position `i` do not change a lookup.
pub proof fn lemma_table_get_skip(entries: Seq<(Seq<char>, TomlTree)>, key: Seq<char>, i: int)
    requires
        0 <= i <= entries.len(),
        forall|j: int| 0 <= j < i ==> (#[trigger] entries[j]).0 != key,
    ensures
        table_get(entries, key) == table_get(entries.skip(i), key),
    decreases i,
{
    if i == 0 {
        assert(entries.skip(0) =~= entries);
    } else {
        assert(entries[0].0 != key);
        let rest = entries.drop_first();
        assert forall|j: int| 0 <= j < i - 1 implies (#[trigger] rest[j]).0 != key by {
            assert(rest[j] == entries[j + 1]);
        }
        lemma_table_get_skip(rest, key, i - 1);
        assert(rest.skip(i - 1) =~= entries.skip(i));
    }
}

/// A lookup finds the key exactly when some entry has it.
pub proof fn lemma_table_get_found(entries: Seq<(Seq<char>, TomlTree)>, key: Seq<char>)
    ensures
        table_get(entries, key) is Some <==> exists|j: int| 0 <= j < entries.len() && (#[trigger] entries[j]).0 == key,
    decreases entries.len(),
{
    if entries.len() > 0 {
        let rest = entries.drop_first();
        lemma_table_get_found(rest, key);
        if entries[0].0 != key {
            if table_get(rest, key) is Some {
                let j = choose|j: int| 0 <= j < rest.len() && (#[trigger] rest[j]).0 == key;
                assert(entries[j + 1].0 == key);
            }
            if exists|j: int| 0 <= j < entries.len() && (#[trigger] entries[j]).0 == key {
                let j = choose|j: int| 0 <= j < entries.len() && (#[trigger] entries[j]).0 == key;
                assert(rest[j - 1].0 == key);
            }
        }
    }
}

/// A descent takes its first step alone and goes on from where that ends.
pub proof fn lemma_descend_step(tree: TomlTree, keys: Seq<Seq<char>>, path: Seq<char>)
    requires
        keys.len() > 0,
    ensures
        descend_spec(tree, keys, path) == match descend_spec(tree, seq![keys[0]], path) {
            Ok(value) => descend_spec(value, keys.drop_first(), path),
            Err(error) => Err(error),
        },
{
    let one = seq![keys[0]];
    assert(one.drop_first() =~= Seq::<Seq<char>>::empty());
    assert(one[0] == keys[0]);
    match tree {
        TomlTree::Table(entries) => match table_get(entries, keys[0]) {
            Some(value) => {
                assert(descend_spec(value, one.drop_first(), path) == Ok::<TomlTree, ErrorView>(value));
            },
            None => {},
        },
        _ => {},
    }
}

impl TomlNode {
    /// Take the value under `key` out of this table.
    ///
    /// Fails with `ValueIsNotTable` where this is no table and with
    /// `KeysNotFound` where the table lacks the key.
    pub fn take_key(self, key: &str, path: &str) -> (found: Result<TomlNode, Error>)
        ensures
            match found {
                Ok(node) => descend_spec(self@, seq![key@], path@) == Ok::<TomlTree, ErrorView>(node@),
                Err(error) => descend_spec(self@, seq![key@], path@) == Err::<TomlTree, ErrorView>(error@),
            },
    {
        let ghost one = seq![key@];
        assert(one.drop_first() =~= Seq::<Seq<char>>::empty());
        match self {
            TomlNode::Table(mut entries) => {
                let ghost all = self@->Table_0;
                let mut i: usize = 0;
                while i < entries.len()
                    invariant
                        0 <= i <= entries.len(),
                        TomlNode::Table(entries)@ == TomlTree::Table(all),
                        self@ == TomlTree::Table(all),
                        one == seq![key@],
                        all.len() == entries.len(),
                        forall|j: int| 0 <= j < i ==> (#[trigger] all[j]).0 != key@,
                    decreases entries.len() - i,
                {
                    assert(all[i as int] == (entries[i as int].key@, entries[i as int].value@));
                    if str_eq(entries[i].key.as_str(), key) {
                        proof {
                            lemma_table_get_skip(all, key@, i as int);
                            assert(all.skip(i as int)[0] == all[i as int]);
                            assert(table_get(all, key@) == Some(all[i as int].1));
                            assert(one.drop_first() =~= Seq::<Seq<char>>::empty());
                            assert(descend_spec(all[i as int].1, one.drop_first(), path@) == Ok::<TomlTree, ErrorView>(
                                all[i as int].1,
                            ));
                        }
                        let entry = entries.remove(i);
                        return Ok(entry.value);
                    }
                    i += 1;
                }
                proof {
                    lemma_table_get_found(all, key@);
                }
                Err(Error::KeysNotFound { keys: key.to_owned(), path: path.to_owned() })
            },
            _ => Err(Error::ValueIsNotTable { path: path.to_owned() }),
        }
    }

    /// Descend one key per level into the nested tables of this value.
    pub fn descend(self, keys: &Vec<&str>, path: &str) -> (found: Result<TomlNode, Error>)
        ensures
            match found {
                Ok(node) => descend_spec(self@, keys.deep_view(), path@) == Ok::<TomlTree, ErrorView>(node@),
                Err(error) => descend_spec(self@, keys.deep_view(), path@) == Err::<TomlTree, ErrorView>(error@),
            },
    {
        let mut current = self;
        let mut k: usize = 0;
        assert(keys.deep_view().skip(0) =~= keys.deep_view());
        while k < keys.len()
            invariant
                0 <= k <= keys.len(),
                descend_spec(self@, keys.deep_view(), path@) == descend_spec(current@, keys.deep_view().skip(k as int), path@),
            decreases keys.len() - k,
        {
            let ghost rest = keys.deep_view().skip(k as int);
            assert(rest[0] == keys[k as int]@);
            assert(rest.drop_first() =~= keys.deep_view().skip(k + 1));
            proof {
                lemma_descend_step(current@, rest, path@);
            }
            match current.take_key(keys[k], path) {
                Ok(node) => {
                    current = node;
                },
                Err(error) => {
                    return Err(error);
                },
            }
            k += 1;
        }
        Ok(current)
    }
}

} // verus!
