//! The tree of a YAML document.

use vstd::prelude::*;

use crate::yaml::same_key;

verus! {

/// A YAML value. A number and a tag are kept as the parser gave them.
#[derive(Debug)]
pub enum Node {
    Null,
    Bool(bool),
    Number(serde_yaml_ng::Number),
    Text(String),
    Sequence(Vec<Node>),
    Mapping(Vec<(Node, Node)>),
    Tagged(serde_yaml_ng::value::Tag, Box<Node>),
}

/// The model of a [`Node`].
pub enum Tree {
    Null,
    Bool(bool),
    Number(serde_yaml_ng::Number),
    Text(Seq<char>),
    Sequence(Seq<Tree>),
    Mapping(Seq<(Tree, Tree)>),
    Tagged(serde_yaml_ng::value::Tag, Box<Tree>),
}

impl Node {
    /// The tree that the node holds.
    pub open spec fn tree(self) -> Tree
        decreases self,
    {
        match self {
            Node::Null => Tree::Null,
            Node::Bool(b) => Tree::Bool(b),
            Node::Number(n) => Tree::Number(n),
            Node::Text(s) => Tree::Text(s@),
            Node::Sequence(items) => Tree::Sequence(
                Seq::new(
                    items@.len(),
                    |i: int| if 0 <= i < items@.len() { items@[i].tree() } else { Tree::Null },
                ),
            ),
            Node::Mapping(entries) => Tree::Mapping(
                Seq::new(
                    entries@.len(),
                    |i: int|
                        if 0 <= i < entries@.len() {
                            (entries@[i].0.tree(), entries@[i].1.tree())
                        } else {
                            (Tree::Null, Tree::Null)
                        },
                ),
            ),
            Node::Tagged(tag, inner) => Tree::Tagged(tag, Box::new((*inner).tree())),
        }
    }
}

impl View for Node {
    type V = Tree;

    open spec fn view(&self) -> Tree {
        self.tree()
    }
}

/// The trees of a list of nodes.
pub open spec fn trees(items: Seq<Node>) -> Seq<Tree> {
    Seq::new(items.len(), |i: int| items[i]@)
}

/// The trees of a list of entries.
pub open spec fn entry_trees(entries: Seq<(Node, Node)>) -> Seq<(Tree, Tree)> {
    Seq::new(entries.len(), |i: int| (entries[i].0@, entries[i].1@))
}

/// The tree of a list and of a mapping, from the trees of their parts.
pub(crate) proof fn tree_of_parts(node: Node)
    ensures
        node matches Node::Sequence(items) ==> node@ == Tree::Sequence(trees(items@)),
        node matches Node::Mapping(entries) ==> node@ == Tree::Mapping(entry_trees(entries@)),
{
    match node {
        Node::Sequence(items) => {
            assert(node@->Sequence_0 =~= trees(items@));
        },
        Node::Mapping(entries) => {
            assert(node@->Mapping_0 =~= entry_trees(entries@));
        },
        _ => {},
    }
}

/// Two keys that cannot both stand in one mapping. A string is the same key as
/// the same string and as nothing else.
pub open spec fn clash(a: Tree, b: Tree) -> bool {
    if a is Text || b is Text {
        a == b
    } else {
        same_key(a, b)
    }
}

/// No two entries have the same key.
pub open spec fn keys_distinct(entries: Seq<(Tree, Tree)>) -> bool {
    forall|i: int, j: int|
        0 <= i < entries.len() && 0 <= j < entries.len() && i != j ==> !clash(
            #[trigger] entries[i].0,
            #[trigger] entries[j].0,
        )
}

/// In each mapping of the tree, no two entries have the same key.
pub open spec fn well_keyed(tree: Tree) -> bool
    decreases tree,
{
    match tree {
        Tree::Sequence(items) => forall|i: int|
            0 <= i < items.len() ==> well_keyed(#[trigger] items[i]),
        Tree::Mapping(entries) => {
            &&& keys_distinct(entries)
            &&& forall|i: int|
                0 <= i < entries.len() ==> well_keyed((#[trigger] entries[i]).0) && well_keyed(
                    entries[i].1,
                )
        },
        Tree::Tagged(_, inner) => well_keyed(*inner),
        _ => true,
    }
}

/// A node holds what its parts hold.
pub proof fn node_holds_its_parts(node: Node)
    ensures
        match node {
            Node::Null => node@ == Tree::Null,
            Node::Bool(b) => node@ == Tree::Bool(b),
            Node::Number(n) => node@ == Tree::Number(n),
            Node::Text(s) => node@ == Tree::Text(s@),
            Node::Sequence(items) => node@ matches Tree::Sequence(list) && list.len() == items@.len()
                && forall|i: int| 0 <= i < list.len() ==> #[trigger] list[i] == items@[i]@,
            Node::Mapping(entries) => node@ matches Tree::Mapping(list) && list.len()
                == entries@.len() && forall|i: int|
                0 <= i < list.len() ==> (#[trigger] list[i]).0 == entries@[i].0@ && list[i].1
                    == entries@[i].1@,
            Node::Tagged(tag, inner) => node@ == Tree::Tagged(tag, Box::new(inner@)),
        },
{
    tree_of_parts(node);
}

/// Lists of nodes and of entries are kept, part by part.
pub proof fn node_lists_are_kept(items: Seq<Node>, entries: Seq<(Node, Node)>, i: int)
    ensures
        trees(items).len() == items.len(),
        0 <= i < items.len() ==> trees(items)[i] == items[i]@,
        entry_trees(entries).len() == entries.len(),
        0 <= i < entries.len() ==> entry_trees(entries)[i] == (entries[i].0@, entries[i].1@),
{
}

/// Which mappings have distinct keys, as far as their keys are strings: those in which
/// no string is the key of two entries.
pub proof fn string_keys_are_distinct(entries: Seq<(Tree, Tree)>)
    requires
        forall|i: int| 0 <= i < entries.len() ==> (#[trigger] entries[i]).0 is Text,
    ensures
        keys_distinct(entries) <==> forall|i: int, j: int|
            0 <= i < j < entries.len() ==> #[trigger] entries[i].0 != #[trigger] entries[j].0,
{
}

/// A tree has distinct keys where the mapping at its root has, and all its parts have.
pub proof fn distinct_keys_go_by_parts(
    items: Seq<Tree>,
    entries: Seq<(Tree, Tree)>,
    tag: serde_yaml_ng::value::Tag,
    inner: Tree,
)
    ensures
        well_keyed(Tree::Sequence(items)) <==> forall|i: int|
            0 <= i < items.len() ==> well_keyed(#[trigger] items[i]),
        well_keyed(Tree::Mapping(entries)) <==> keys_distinct(entries) && forall|i: int|
            0 <= i < entries.len() ==> well_keyed((#[trigger] entries[i]).0) && well_keyed(
                entries[i].1,
            ),
        well_keyed(Tree::Tagged(tag, Box::new(inner))) <==> well_keyed(inner),
        !(inner is Sequence) && !(inner is Mapping) && !(inner is Tagged) ==> well_keyed(inner),
{
    reveal_with_fuel(well_keyed, 2);
    let list = Tree::Sequence(items);
    let map = Tree::Mapping(entries);
    assert(list->Sequence_0 == items);
    assert(map->Mapping_0 == entries);
}

} // verus!
