//! Reading YAML and writing JSON.

use serde_yaml_ng::value::{Tag, TaggedValue};
use serde_yaml_ng::{Number, Value};
use vstd::prelude::*;

use crate::error::{Failure, RenderError};
use crate::node::{entry_trees, keys_distinct, tree_of_parts, trees, well_keyed, Node, Tree};

verus! {

/// A YAML number of `serde_yaml_ng`, carried as it is.
#[verifier::external_type_specification]
#[verifier::external_body]
pub struct ExNumber(serde_yaml_ng::Number);

/// A YAML tag of `serde_yaml_ng`, carried as it is.
#[verifier::external_type_specification]
#[verifier::external_body]
pub struct ExTag(serde_yaml_ng::value::Tag);

/// A YAML value of `serde_yaml_ng`; [`value_tree`] says what it holds.
#[verifier::external_type_specification]
#[verifier::external_body]
pub struct ExValue(serde_yaml_ng::Value);

/// Why `serde_yaml_ng` could not read a text.
#[verifier::external_type_specification]
#[verifier::external_body]
pub struct ExYamlError(serde_yaml_ng::Error);

/// Why `serde_json` could not write a value.
#[verifier::external_type_specification]
#[verifier::external_body]
pub struct ExJsonError(serde_json::Error);

/// What a value of `serde_yaml_ng` holds.
pub uninterp spec fn value_tree(value: Value) -> Tree;

/// Whether two values of `serde_yaml_ng` are equal (`==`), and so the same key,
/// where neither is a string.
pub uninterp spec fn same_key(a: Tree, b: Tree) -> bool;

/// The trees of a list of values.
pub open spec fn value_trees(values: Seq<Value>) -> Seq<Tree> {
    Seq::new(values.len(), |i: int| value_tree(values[i]))
}

/// The trees of the entries of a mapping.
pub open spec fn value_entries(entries: Seq<(Value, Value)>) -> Seq<(Tree, Tree)> {
    Seq::new(entries.len(), |i: int| (value_tree(entries[i].0), value_tree(entries[i].1)))
}

/// One level of a value.
pub(crate) enum Parts {
    Null,
    Bool(bool),
    Number(Number),
    Text(String),
    Sequence(Vec<Value>),
    Mapping(Vec<(Value, Value)>),
    Tagged(Tag, Value),
}

impl Parts {
    /// The tree of the value with these parts.
    pub(crate) open spec fn tree(self) -> Tree {
        match self {
            Parts::Null => Tree::Null,
            Parts::Bool(b) => Tree::Bool(b),
            Parts::Number(n) => Tree::Number(n),
            Parts::Text(s) => Tree::Text(s@),
            Parts::Sequence(items) => Tree::Sequence(value_trees(items@)),
            Parts::Mapping(entries) => Tree::Mapping(value_entries(entries@)),
            Parts::Tagged(tag, inner) => Tree::Tagged(tag, Box::new(value_tree(inner))),
        }
    }
}

/// Tells the variants of `serde_yaml_ng::Value` apart. The entries of a mapping
/// come in its order (`Mapping::into_iter`), and no two of them have equal keys.
#[verifier::external_body]
fn take_apart(value: Value) -> (r: Parts)
    ensures
        r.tree() == value_tree(value),
        r.tree() matches Tree::Mapping(entries) ==> forall|i: int, j: int|
            0 <= i < entries.len() && 0 <= j < entries.len() && i != j ==> if entries[i].0 is Text
                || entries[j].0 is Text {
                #[trigger] entries[i].0 != #[trigger] entries[j].0
            } else {
                !same_key(entries[i].0, entries[j].0)
            },
{
    match value {
        Value::Null => Parts::Null,
        Value::Bool(b) => Parts::Bool(b),
        Value::Number(n) => Parts::Number(n),
        Value::String(s) => Parts::Text(s),
        Value::Sequence(items) => Parts::Sequence(items),
        Value::Mapping(map) => Parts::Mapping(map.into_iter().collect()),
        Value::Tagged(tagged) => Parts::Tagged(tagged.tag, tagged.value),
    }
}

/// Makes a `serde_yaml_ng::Value` of its parts. A mapping is collected from its
/// entries, which keeps them all, in their order, where no two have equal keys.
#[verifier::external_body]
fn put_together(parts: Parts) -> (r: Value)
    ensures
        (parts.tree() matches Tree::Mapping(entries) ==> keys_distinct(entries)) ==> value_tree(r)
            == parts.tree(),
{
    match parts {
        Parts::Null => Value::Null,
        Parts::Bool(b) => Value::Bool(b),
        Parts::Number(n) => Value::Number(n),
        Parts::Text(s) => Value::String(s),
        Parts::Sequence(items) => Value::Sequence(items),
        Parts::Mapping(entries) => Value::Mapping(entries.into_iter().collect()),
        Parts::Tagged(tag, value) => Value::Tagged(Box::new(TaggedValue { tag, value })),
    }
}

/// What `serde_yaml_ng::from_str` reads a text as, or what it says is wrong with it.
pub uninterp spec fn yaml_tree(text: Seq<char>) -> Result<Tree, Seq<char>>;

/// What the error of `serde_yaml_ng` says.
pub uninterp spec fn yaml_complaint(e: serde_yaml_ng::Error) -> Seq<char>;

/// What `serde_json::to_string_pretty` writes for a YAML value that holds the
/// tree, or what it says is wrong with it.
pub uninterp spec fn json_text(tree: Tree) -> Result<Seq<char>, Seq<char>>;

/// What the error of `serde_json` says.
pub uninterp spec fn json_complaint(e: serde_json::Error) -> Seq<char>;

/// `serde_yaml_ng::from_str`, which reads a text as a value: the same text
/// always gives the same value or the same complaint.
#[verifier::external_body]
fn yaml_from_str(text: &str) -> (r: Result<Value, serde_yaml_ng::Error>)
    ensures
        yaml_tree(text@) == match r {
            Ok(value) => Ok(value_tree(value)),
            Err(e) => Err(yaml_complaint(e)),
        },
{
    serde_yaml_ng::from_str(text)
}

/// `to_string` of `serde_yaml_ng::Error`, the text of its complaint.
#[verifier::external_body]
fn yaml_error_text(e: &serde_yaml_ng::Error) -> (r: String)
    ensures
        r@ == yaml_complaint(*e),
{
    e.to_string()
}

/// `serde_json::to_string_pretty`, which writes a value: values that hold the
/// same tree always give the same text or the same complaint.
#[verifier::external_body]
fn json_to_string_pretty(value: &Value) -> (r: Result<String, serde_json::Error>)
    ensures
        json_text(value_tree(*value)) == match r {
            Ok(text) => Ok(text@),
            Err(e) => Err(json_complaint(e)),
        },
{
    serde_json::to_string_pretty(value)
}

/// `to_string` of `serde_json::Error`, the text of its complaint.
#[verifier::external_body]
fn json_error_text(e: &serde_json::Error) -> (r: String)
    ensures
        r@ == json_complaint(*e),
{
    e.to_string()
}

/// The node that holds what `value` holds.
pub fn node_of(value: Value) -> (r: Node)
    ensures
        r@ == value_tree(value),
        well_keyed(r@),
    decreases value_tree(value),
{
    let ghost tree = value_tree(value);
    match take_apart(value) {
        Parts::Null => Node::Null,
        Parts::Bool(b) => Node::Bool(b),
        Parts::Number(n) => Node::Number(n),
        Parts::Text(s) => Node::Text(s),
        Parts::Sequence(items) => {
            assert(decreases_to!(tree => tree->Sequence_0));
            let nodes = nodes_of(items);
            let r = Node::Sequence(nodes);
            proof {
                tree_of_parts(r);
                assert(trees(nodes@) =~= value_trees(items@));
            }
            r
        },
        Parts::Mapping(entries) => {
            let mut nodes: Vec<(Node, Node)> = Vec::new();
            let ghost all = value_entries(entries@);
            for entry in it: entries.into_iter()
                invariant
                    it.seq() == entries@,
                    all == value_entries(entries@),
                    tree == Tree::Mapping(all),
                    tree == value_tree(value),
                    nodes@.len() == it.index(),
                    forall|i: int| 0 <= i < nodes@.len() ==> (nodes@[i].0@, nodes@[i].1@) == all[i],
                    forall|i: int| 0 <= i < nodes@.len() ==> well_keyed((#[trigger] all[i]).0) && well_keyed(all[i].1),
            {
                let ghost i = it.index() as int;
                assert(all[i] == (value_tree(entry.0), value_tree(entry.1)));
                assert(decreases_to!(tree => tree->Mapping_0));
                assert(decreases_to!(tree->Mapping_0 => tree->Mapping_0[i]));
                assert(decreases_to!(tree->Mapping_0[i] => tree->Mapping_0[i].0));
                assert(decreases_to!(tree->Mapping_0[i] => tree->Mapping_0[i].1));
                let (key, item) = entry;
                let key = node_of(key);
                let item = node_of(item);
                nodes.push((key, item));
            }
            let r = Node::Mapping(nodes);
            proof {
                tree_of_parts(r);
                assert(entry_trees(nodes@) =~= all);
            }
            r
        },
        Parts::Tagged(tag, inner) => {
            assert(decreases_to!(tree => *tree->Tagged_1));
            let inner = node_of(inner);
            Node::Tagged(tag, Box::new(inner))
        },
    }
}

/// The nodes that hold what the values hold.
pub fn nodes_of(values: Vec<Value>) -> (r: Vec<Node>)
    ensures
        trees(r@) == value_trees(values@),
        forall|i: int| 0 <= i < r@.len() ==> well_keyed((#[trigger] r@[i])@),
    decreases value_trees(values@),
{
    let mut nodes: Vec<Node> = Vec::new();
    let ghost all = value_trees(values@);
    for value in it: values.into_iter()
        invariant
            it.seq() == values@,
            all == value_trees(values@),
            nodes@.len() == it.index(),
            forall|i: int| 0 <= i < nodes@.len() ==> (#[trigger] nodes@[i])@ == all[i],
            forall|i: int| 0 <= i < nodes@.len() ==> well_keyed((#[trigger] nodes@[i])@),
    {
        assert(all[it.index() as int] == value_tree(value));
        nodes.push(node_of(value));
    }
    assert(trees(nodes@) =~= all);
    nodes
}

/// The value that holds what `node` holds.
fn value_of(node: Node) -> (r: Value)
    ensures
        well_keyed(node@) ==> value_tree(r) == node@,
    decreases node@,
{
    let ghost tree = node@;
    match node {
        Node::Null => put_together(Parts::Null),
        Node::Bool(b) => put_together(Parts::Bool(b)),
        Node::Number(n) => put_together(Parts::Number(n)),
        Node::Text(s) => put_together(Parts::Text(s)),
        Node::Sequence(items) => {
            proof {
                tree_of_parts(node);
            }
            let ghost all = trees(items@);
            let mut values: Vec<Value> = Vec::new();
            for item in it: items.into_iter()
                invariant
                    it.seq() == items@,
                    all == trees(items@),
                    tree == Tree::Sequence(all),
                    tree == node@,
                    values@.len() == it.index(),
                    forall|i: int|
                        0 <= i < values@.len() ==> (well_keyed(tree) ==> value_tree(
                            #[trigger] values@[i],
                        ) == all[i]),
            {
                let ghost i = it.index() as int;
                assert(all[i] == item@);
                assert(decreases_to!(tree => tree->Sequence_0));
                assert(decreases_to!(tree->Sequence_0 => tree->Sequence_0[i]));
                values.push(value_of(item));
            }
            proof {
                if well_keyed(tree) {
                    assert(value_trees(values@) =~= all);
                }
            }
            put_together(Parts::Sequence(values))
        },
        Node::Mapping(entries) => {
            proof {
                tree_of_parts(node);
            }
            let ghost all = entry_trees(entries@);
            let mut values: Vec<(Value, Value)> = Vec::new();
            for entry in it: entries.into_iter()
                invariant
                    it.seq() == entries@,
                    all == entry_trees(entries@),
                    tree == Tree::Mapping(all),
                    tree == node@,
                    values@.len() == it.index(),
                    forall|i: int|
                        0 <= i < values@.len() ==> (well_keyed(tree) ==> (
                            value_tree((#[trigger] values@[i]).0),
                            value_tree(values@[i].1),
                        ) == all[i]),
            {
                let ghost i = it.index() as int;
                assert(all[i] == (entry.0@, entry.1@));
                assert(decreases_to!(tree => tree->Mapping_0));
                assert(decreases_to!(tree->Mapping_0 => tree->Mapping_0[i]));
                assert(decreases_to!(tree->Mapping_0[i] => tree->Mapping_0[i].0));
                assert(decreases_to!(tree->Mapping_0[i] => tree->Mapping_0[i].1));
                let (key, item) = entry;
                let key = value_of(key);
                let item = value_of(item);
                values.push((key, item));
            }
            proof {
                if well_keyed(tree) {
                    assert(value_entries(values@) =~= all);
                }
            }
            put_together(Parts::Mapping(values))
        },
        Node::Tagged(tag, inner) => {
            assert(decreases_to!(tree => *tree->Tagged_1));
            let value = value_of(*inner);
            put_together(Parts::Tagged(tag, value))
        },
    }
}

/// Reads the text of the file at `path` as YAML.
pub(crate) fn read_yaml(text: &str, path: &str) -> (r: Result<Node, RenderError>)
    ensures
        match (r, yaml_tree(text@)) {
            (Ok(node), Ok(tree)) => node@ == tree && well_keyed(tree),
            (Err(e), Err(cause)) => e@ == (Failure::Parse { path: path@, cause }),
            _ => false,
        },
{
    match yaml_from_str(text) {
        Ok(value) => Ok(node_of(value)),
        Err(e) => Err(RenderError::Parse { path: path.to_owned(), cause: yaml_error_text(&e) }),
    }
}

/// Writes a node as JSON, one entry or item to a line.
pub(crate) fn write_json(node: Node) -> (r: Result<String, RenderError>)
    requires
        well_keyed(node@),
    ensures
        match (r, json_text(node@)) {
            (Ok(s), Ok(text)) => s@ == text,
            (Err(e), Err(cause)) => e@ == (Failure::Serialize { cause }),
            _ => false,
        },
{
    match json_to_string_pretty(&value_of(node)) {
        Ok(text) => Ok(text),
        Err(e) => Err(RenderError::Serialize { cause: json_error_text(&e) }),
    }
}

/// The parts of a value tell what it holds.
pub(crate) proof fn parts_tell_the_tree(parts: Parts)
    ensures
        match parts {
            Parts::Null => parts.tree() == Tree::Null,
            Parts::Bool(b) => parts.tree() == Tree::Bool(b),
            Parts::Number(n) => parts.tree() == Tree::Number(n),
            Parts::Text(s) => parts.tree() == Tree::Text(s@),
            Parts::Sequence(items) => parts.tree() matches Tree::Sequence(list) && list.len()
                == items@.len() && forall|i: int|
                0 <= i < list.len() ==> #[trigger] list[i] == value_tree(items@[i]),
            Parts::Mapping(entries) => parts.tree() matches Tree::Mapping(list) && list.len()
                == entries@.len() && forall|i: int|
                0 <= i < list.len() ==> (#[trigger] list[i]).0 == value_tree(entries@[i].0)
                    && list[i].1 == value_tree(entries@[i].1),
            Parts::Tagged(tag, inner) => parts.tree() == Tree::Tagged(
                tag,
                Box::new(value_tree(inner)),
            ),
        },
{
}

/// Lists of values and of entries are kept, part by part.
pub proof fn value_lists_are_kept(values: Seq<Value>, entries: Seq<(Value, Value)>, i: int)
    ensures
        value_trees(values).len() == values.len(),
        0 <= i < values.len() ==> value_trees(values)[i] == value_tree(values[i]),
        value_entries(entries).len() == entries.len(),
        0 <= i < entries.len() ==> value_entries(entries)[i] == (
            value_tree(entries[i].0),
            value_tree(entries[i].1),
        ),
{
}

} // verus!
