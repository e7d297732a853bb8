//! Putting lists of items where the base file holds a marker.

use vstd::arithmetic::mul::lemma_mul_is_distributive_add_other_way;
use vstd::prelude::*;

use crate::error::{Failure, RenderError};
use crate::node::{entry_trees, tree_of_parts, trees, well_keyed, Node, Tree};

verus! {

/// How often `marker` is an item of a list, in the lists of the tree at any
/// depth. The keys of a mapping are not searched.
pub open spec fn occurrences(tree: Tree, marker: Seq<char>) -> nat
    decreases tree,
{
    match tree {
        Tree::Sequence(items) => in_items(items, marker),
        Tree::Mapping(entries) => in_values(entries, marker),
        Tree::Tagged(_, inner) => occurrences(*inner, marker),
        _ => 0,
    }
}

/// How often `marker` is one of the items, or an item of a list within one.
pub open spec fn in_items(items: Seq<Tree>, marker: Seq<char>) -> nat
    decreases items,
{
    if items.len() == 0 {
        0
    } else {
        in_items(items.drop_last(), marker) + occurrences(items.last(), marker) + if items.last()
            == Tree::Text(marker) {
            1nat
        } else {
            0nat
        }
    }
}

/// How often `marker` is an item of a list within the values of the entries.
pub open spec fn in_values(entries: Seq<(Tree, Tree)>, marker: Seq<char>) -> nat
    decreases entries,
{
    if entries.len() == 0 {
        0
    } else {
        in_values(entries.drop_last(), marker) + occurrences(entries.last().1, marker)
    }
}

/// What takes the place of a string that is a marker. Another string has none.
pub type Fills = spec_fn(Seq<char>) -> Option<Seq<Tree>>;

/// `items` for `marker`, and for no other string.
pub open spec fn one(marker: Seq<char>, items: Seq<Tree>) -> Fills {
    |s: Seq<char>|
        if s == marker {
            Some(items)
        } else {
            None
        }
}

/// `items` for `marker` and `more` for `other`.
pub open spec fn both(
    marker: Seq<char>,
    items: Seq<Tree>,
    other: Seq<char>,
    more: Seq<Tree>,
) -> Fills {
    |s: Seq<char>|
        if s == marker {
            Some(items)
        } else if s == other {
            Some(more)
        } else {
            None
        }
}

/// What takes the place of a list item that is a marker.
pub open spec fn put_for(item: Tree, fills: Fills) -> Option<Seq<Tree>> {
    match item {
        Tree::Text(s) => fills(s),
        _ => None,
    }
}

/// The tree with what `fills` has in place of each list item that is a marker.
/// What is put in is put in as it is.
pub open spec fn filled(tree: Tree, fills: Fills) -> Tree
    decreases tree,
{
    match tree {
        Tree::Sequence(items) => Tree::Sequence(filled_items(items, fills)),
        Tree::Mapping(entries) => Tree::Mapping(
            Seq::new(
                entries.len(),
                |i: int|
                    if 0 <= i < entries.len() {
                        (entries[i].0, filled(entries[i].1, fills))
                    } else {
                        (Tree::Null, Tree::Null)
                    },
            ),
        ),
        Tree::Tagged(tag, inner) => Tree::Tagged(tag, Box::new(filled(*inner, fills))),
        _ => tree,
    }
}

/// The items of a list with what `fills` has in place of each marker.
pub open spec fn filled_items(items: Seq<Tree>, fills: Fills) -> Seq<Tree>
    decreases items,
{
    if items.len() == 0 {
        Seq::empty()
    } else {
        filled_items(items.drop_last(), fills) + match put_for(items.last(), fills) {
            Some(new) => new,
            None => seq![filled(items.last(), fills)],
        }
    }
}

/// The largest count that can be told.
pub open spec fn capped(n: nat) -> nat {
    if n <= usize::MAX {
        n
    } else {
        usize::MAX as nat
    }
}

/// What [`splice`] makes of `root`: the tree with `items` in place of the one
/// list item equal to `marker`.
pub open spec fn spliced(root: Tree, marker: Seq<char>, items: Seq<Tree>) -> Result<Tree, Failure> {
    if occurrences(root, marker) == 1 {
        Ok(filled(root, one(marker, items)))
    } else {
        Err(Failure::MarkerCount { marker, found: capped(occurrences(root, marker)) })
    }
}

proof fn in_items_step(items: Seq<Tree>, marker: Seq<char>, i: int)
    requires
        0 <= i < items.len(),
    ensures
        in_items(items.take(i + 1), marker) == in_items(items.take(i), marker) + occurrences(
            items[i],
            marker,
        ) + if items[i] == Tree::Text(marker) {
            1nat
        } else {
            0nat
        },
{
    assert(items.take(i + 1).drop_last() =~= items.take(i));
    assert(items.take(i + 1).last() == items[i]);
}

proof fn in_values_step(entries: Seq<(Tree, Tree)>, marker: Seq<char>, i: int)
    requires
        0 <= i < entries.len(),
    ensures
        in_values(entries.take(i + 1), marker) == in_values(entries.take(i), marker) + occurrences(
            entries[i].1,
            marker,
        ),
{
    assert(entries.take(i + 1).drop_last() =~= entries.take(i));
    assert(entries.take(i + 1).last() == entries[i]);
}

/// Counts how often `marker` is an item of a list.
pub(crate) fn count(node: &Node, marker: &String) -> (r: usize)
    ensures
        r == capped(occurrences(node@, marker@)),
    decreases node@,
{
    let ghost tree = node@;
    proof {
        tree_of_parts(*node);
    }
    match node {
        Node::Sequence(items) => {
            let ghost all = trees(items@);
            let mut found: usize = 0;
            let mut i: usize = 0;
            while i < items.len()
                invariant
                    i <= items@.len(),
                    all == trees(items@),
                    tree == Tree::Sequence(all),
                    tree == node@,
                    found == capped(in_items(all.take(i as int), marker@)),
                decreases items@.len() - i,
            {
                proof {
                    in_items_step(all, marker@, i as int);
                    assert(decreases_to!(tree => tree->Sequence_0));
                    assert(decreases_to!(tree->Sequence_0 => tree->Sequence_0[i as int]));
                }
                let within = count(&items[i], marker);
                found = found.saturating_add(within);
                if is_text(&items[i], marker) {
                    found = found.saturating_add(1);
                }
                i += 1;
            }
            assert(all.take(i as int) =~= all);
            found
        },
        Node::Mapping(entries) => {
            let ghost all = entry_trees(entries@);
            let mut found: usize = 0;
            let mut i: usize = 0;
            while i < entries.len()
                invariant
                    i <= entries@.len(),
                    all == entry_trees(entries@),
                    tree == Tree::Mapping(all),
                    tree == node@,
                    found == capped(in_values(all.take(i as int), marker@)),
                decreases entries@.len() - i,
            {
                proof {
                    in_values_step(all, marker@, i as int);
                    assert(decreases_to!(tree => tree->Mapping_0));
                    assert(decreases_to!(tree->Mapping_0 => tree->Mapping_0[i as int]));
                    assert(decreases_to!(tree->Mapping_0[i as int] => tree->Mapping_0[i as int].1));
                }
                let within = count(&entries[i].1, marker);
                found = found.saturating_add(within);
                i += 1;
            }
            assert(all.take(i as int) =~= all);
            found
        },
        Node::Tagged(_, inner) => {
            assert(decreases_to!(tree => *tree->Tagged_1));
            count(inner, marker)
        },
        _ => 0,
    }
}

/// Whether the node is the string `text`.
pub(crate) fn is_text(node: &Node, text: &String) -> (r: bool)
    ensures
        r == (node@ == Tree::Text(text@)),
{
    match node {
        Node::Text(s) => *s == *text,
        _ => false,
    }
}

/// Where `text` first stands among the items.
pub(crate) fn position(items: &Vec<Node>, text: &String) -> (r: Option<usize>)
    ensures
        match r {
            Some(at) => at < items@.len() && trees(items@).index_of_first(Tree::Text(text@))
                == Some(at as int),
            None => trees(items@).index_of_first(Tree::Text(text@)) is None,
        },
{
    let ghost all = trees(items@);
    let ghost needle = Tree::Text(text@);
    proof {
        all.index_of_first_ensures(needle);
    }
    let mut i: usize = 0;
    while i < items.len()
        invariant
            i <= items@.len(),
            all == trees(items@),
            needle == Tree::Text(text@),
            forall|j: int| 0 <= j < i ==> all[j] != needle,
        decreases items@.len() - i,
    {
        if is_text(&items[i], text) {
            proof {
                all.index_of_first_ensures(needle);
                assert(all[i as int] == needle);
                assert(all.contains(needle));
            }
            return Some(i);
        }
        i += 1;
    }
    proof {
        all.index_of_first_ensures(needle);
    }
    None
}

proof fn in_items_grows(items: Seq<Tree>, marker: Seq<char>, i: int, j: int)
    requires
        0 <= i <= j <= items.len(),
    ensures
        in_items(items.take(i), marker) <= in_items(items.take(j), marker),
    decreases j - i,
{
    if i < j {
        in_items_step(items, marker, j - 1);
        in_items_grows(items, marker, i, j - 1);
    }
}

proof fn in_values_grows(entries: Seq<(Tree, Tree)>, marker: Seq<char>, i: int, j: int)
    requires
        0 <= i <= j <= entries.len(),
    ensures
        in_values(entries.take(i), marker) <= in_values(entries.take(j), marker),
    decreases j - i,
{
    if i < j {
        in_values_step(entries, marker, j - 1);
        in_values_grows(entries, marker, i, j - 1);
    }
}

/// What stands at one place of a list counts toward the whole.
proof fn in_items_counts(items: Seq<Tree>, marker: Seq<char>, i: int)
    requires
        0 <= i < items.len(),
    ensures
        in_items(items.take(i), marker) + occurrences(items[i], marker) + (if items[i]
            == Tree::Text(marker) {
            1nat
        } else {
            0nat
        }) <= in_items(items, marker),
{
    in_items_step(items, marker, i);
    in_items_grows(items, marker, i + 1, items.len() as int);
    assert(items.take(items.len() as int) =~= items);
}

/// What stands in one value of a mapping counts toward the whole.
proof fn in_values_counts(entries: Seq<(Tree, Tree)>, marker: Seq<char>, i: int)
    requires
        0 <= i < entries.len(),
    ensures
        in_values(entries.take(i), marker) + occurrences(entries[i].1, marker) <= in_values(
            entries,
            marker,
        ),
{
    in_values_step(entries, marker, i);
    in_values_grows(entries, marker, i + 1, entries.len() as int);
    assert(entries.take(entries.len() as int) =~= entries);
}

proof fn filled_items_step(items: Seq<Tree>, fills: Fills, i: int)
    requires
        0 <= i < items.len(),
    ensures
        filled_items(items.take(i + 1), fills) == filled_items(items.take(i), fills) + match put_for(
            items[i],
            fills,
        ) {
            Some(new) => new,
            None => seq![filled(items[i], fills)],
        },
{
    assert(items.take(i + 1).drop_last() =~= items.take(i));
    assert(items.take(i + 1).last() == items[i]);
}

/// Only what `fills` has for the markers that are there matters.
proof fn only_present_markers_matter(tree: Tree, a: Fills, b: Fills)
    requires
        forall|s: Seq<char>| #[trigger] occurrences(tree, s) > 0 ==> a(s) == b(s),
    ensures
        filled(tree, a) == filled(tree, b),
    decreases tree,
{
    match tree {
        Tree::Sequence(items) => {
            assert(decreases_to!(tree => items));
            items_agree(items, a, b, items.len() as int);
            assert(items.take(items.len() as int) =~= items);
        },
        Tree::Mapping(entries) => {
            assert forall|i: int| 0 <= i < entries.len() implies filled(
                (#[trigger] entries[i]).1,
                a,
            ) == filled(entries[i].1, b) by {
                assert(decreases_to!(entries => entries[i]));
                assert(decreases_to!(entries[i] => entries[i].1));
                assert forall|s: Seq<char>| #[trigger] occurrences(entries[i].1, s) > 0 implies a(s)
                    == b(s) by {
                    in_values_counts(entries, s, i);
                    assert(occurrences(tree, s) > 0);
                }
                only_present_markers_matter(entries[i].1, a, b);
            }
            assert(filled(tree, a)->Mapping_0 =~= filled(tree, b)->Mapping_0);
        },
        Tree::Tagged(_, inner) => {
            assert forall|s: Seq<char>| #[trigger] occurrences(*inner, s) > 0 implies a(s)
                == b(s) by {
                assert(occurrences(tree, s) > 0);
            }
            only_present_markers_matter(*inner, a, b);
        },
        _ => {},
    }
}

proof fn items_agree(items: Seq<Tree>, a: Fills, b: Fills, n: int)
    requires
        0 <= n <= items.len(),
        forall|s: Seq<char>| #[trigger]
            occurrences(Tree::Sequence(items), s) > 0 ==> a(s) == b(s),
    ensures
        filled_items(items.take(n), a) == filled_items(items.take(n), b),
    decreases items, n,
{
    if n > 0 {
        let i = n - 1;
        items_agree(items, a, b, i);
        filled_items_step(items, a, i);
        filled_items_step(items, b, i);
        assert forall|s: Seq<char>|
            occurrences(items[i], s) > 0 || items[i] == Tree::Text(s) implies #[trigger] a(s) == b(
            s,
        ) by {
            in_items_counts(items, s, i);
            assert(occurrences(Tree::Sequence(items), s) > 0);
        }
        assert(decreases_to!(items => items[i]));
        only_present_markers_matter(items[i], a, b);
        if let Tree::Text(s) = items[i] {
            assert(a(s) == b(s));
        }
    } else {
        assert(items.take(n) =~= Seq::<Tree>::empty());
    }
}

/// What is still to be put in for one marker.
pub(crate) struct Fill {
    pub(crate) marker: String,
    pub(crate) items: Vec<Node>,
}

/// What the list has for `s`.
pub(crate) open spec fn fill_for(list: Seq<Fill>, s: Seq<char>) -> Option<Seq<Tree>>
    decreases list.len(),
{
    if list.len() == 0 {
        None
    } else if list.last().marker@ == s {
        Some(trees(list.last().items@))
    } else {
        fill_for(list.drop_last(), s)
    }
}

/// What the list has for each marker.
pub(crate) open spec fn fills_of(list: Seq<Fill>) -> Fills {
    |s: Seq<char>| fill_for(list, s)
}

/// Every marker in the list is at most once in the tree.
pub(crate) open spec fn fits(list: Seq<Fill>, tree: Tree) -> bool {
    forall|s: Seq<char>| #[trigger] fill_for(list, s) is Some ==> occurrences(tree, s) <= 1
}

/// Without one of its parts, a list has the same for every other marker.
proof fn other_fills_stay(list: Seq<Fill>, k: int, s: Seq<char>)
    requires
        0 <= k < list.len(),
        list[k].marker@ != s,
    ensures
        fill_for(list.remove(k), s) == fill_for(list, s),
    decreases list.len(),
{
    let rest = list.remove(k);
    let n = list.len() - 1;
    if k == n {
        assert(rest =~= list.drop_last());
    } else {
        assert(rest.last() == list.last());
        assert(rest.drop_last() =~= list.drop_last().remove(k));
        other_fills_stay(list.drop_last(), k, s);
    }
}

/// Without one of its parts, a list has something for no other marker.
proof fn no_fill_is_added(list: Seq<Fill>, k: int, s: Seq<char>)
    requires
        0 <= k < list.len(),
        fill_for(list.remove(k), s) is Some,
    ensures
        fill_for(list, s) is Some,
    decreases list.len(),
{
    if list[k].marker@ != s {
        other_fills_stay(list, k, s);
    } else {
        let n = list.len() - 1;
        if k < n && list.last().marker@ != s {
            assert(list.remove(k).last() == list.last());
            assert(list.remove(k).drop_last() =~= list.drop_last().remove(k));
            no_fill_is_added(list.drop_last(), k, s);
        }
    }
}

/// Which part of the list is for the marker `text`.
fn find_fill(list: &Vec<Fill>, text: &String) -> (r: Option<usize>)
    ensures
        match r {
            Some(k) => {
                &&& k < list@.len()
                &&& list@[k as int].marker@ == text@
                &&& fill_for(list@, text@) == Some(trees(list@[k as int].items@))
            },
            None => fill_for(list@, text@) is None,
        },
{
    let mut n: usize = list.len();
    assert(list@.take(n as int) =~= list@);
    while n > 0
        invariant
            n <= list@.len(),
            fill_for(list@, text@) == fill_for(list@.take(n as int), text@),
        decreases n,
    {
        assert(list@.take(n as int).drop_last() =~= list@.take(n - 1));
        assert(list@.take(n as int).last() == list@[n - 1]);
        if list[n - 1].marker == *text {
            return Some(n - 1);
        }
        n -= 1;
    }
    None
}

/// Takes out of the list what it has for a list item that is a marker.
fn take_fill(item: &Node, list: &mut Vec<Fill>) -> (r: Option<Vec<Node>>)
    ensures
        match r {
            Some(new) => put_for(item@, fills_of(old(list)@)) == Some(trees(new@)),
            None => put_for(item@, fills_of(old(list)@)) is None && final(list)@ == old(list)@,
        },
        forall|s: Seq<char>|
            item@ != Tree::Text(s) ==> #[trigger] fill_for(final(list)@, s) == fill_for(
                old(list)@,
                s,
            ),
        forall|s: Seq<char>| #[trigger]
            fill_for(final(list)@, s) is Some ==> fill_for(old(list)@, s) is Some,
{
    match item {
        Node::Text(text) => match find_fill(list, text) {
            Some(k) => {
                let ghost before = list@;
                let Fill { marker: _, items } = list.remove(k);
                proof {
                    assert forall|s: Seq<char>| item@ != Tree::Text(s) implies #[trigger] fill_for(
                        list@,
                        s,
                    ) == fill_for(before, s) by {
                        other_fills_stay(before, k as int, s);
                    }
                    assert forall|s: Seq<char>| #[trigger]
                        fill_for(list@, s) is Some implies fill_for(before, s) is Some by {
                        no_fill_is_added(before, k as int, s);
                    }
                }
                Some(items)
            },
            None => None,
        },
        _ => None,
    }
}

/// Puts what the list has in place of each list item that is a marker, in one walk
/// that does not enter what it puts in.
pub(crate) fn fill(node: Node, list: &mut Vec<Fill>) -> (r: Node)
    requires
        fits(old(list)@, node@),
    ensures
        r@ == filled(node@, fills_of(old(list)@)),
        forall|s: Seq<char>|
            occurrences(node@, s) == 0 ==> #[trigger] fill_for(final(list)@, s) == fill_for(
                old(list)@,
                s,
            ),
        forall|s: Seq<char>| #[trigger]
            fill_for(final(list)@, s) is Some ==> fill_for(old(list)@, s) is Some,
    decreases node@,
{
    let ghost tree = node@;
    let ghost first = list@;
    let ghost fills = fills_of(first);
    proof {
        tree_of_parts(node);
    }
    match node {
        Node::Sequence(items) => {
            let ghost all = trees(items@);
            let mut out: Vec<Node> = Vec::new();
            assert(trees(out@) =~= filled_items(all.take(0), fills));
            for item in it: items.into_iter()
                invariant
                    it.seq() == items@,
                    all == trees(items@),
                    tree == Tree::Sequence(all),
                    tree == node@,
                    fills == fills_of(first),
                    fits(first, tree),
                    trees(out@) == filled_items(all.take(it.index() as int), fills),
                    forall|s: Seq<char>|
                        in_items(all.take(it.index() as int), s) == 0 ==> #[trigger] fill_for(
                            list@,
                            s,
                        ) == fill_for(first, s),
                    forall|s: Seq<char>| #[trigger]
                        fill_for(list@, s) is Some ==> fill_for(first, s) is Some,
            {
                let ghost i = it.index() as int;
                let ghost before = trees(out@);
                let ghost at_hand = list@;
                proof {
                    filled_items_step(all, fills, i);
                    assert forall|s: Seq<char>| #[trigger]
                        occurrences(all[i], s) > 0 || all[i] == Tree::Text(s) implies fill_for(
                        at_hand,
                        s,
                    ) == fill_for(first, s) by {
                        in_items_counts(all, s, i);
                        if fill_for(first, s) is Some {
                            assert(occurrences(tree, s) <= 1);
                            assert(in_items(all.take(i), s) == 0);
                        }
                    }
                    assert(all[i] == item@);
                    if let Tree::Text(s) = all[i] {
                        assert(occurrences(all[i], s) == 0);
                    }
                    assert(put_for(all[i], fills) == put_for(all[i], fills_of(at_hand)));
                    only_present_markers_matter(all[i], fills, fills_of(at_hand));
                    assert forall|s: Seq<char>| #[trigger]
                        fill_for(at_hand, s) is Some implies occurrences(all[i], s) <= 1 by {
                        in_items_counts(all, s, i);
                        assert(occurrences(tree, s) <= 1);
                    }
                    assert(decreases_to!(tree => tree->Sequence_0));
                    assert(decreases_to!(tree->Sequence_0 => tree->Sequence_0[i]));
                }
                match take_fill(&item, list) {
                    Some(new) => {
                        let mut new = new;
                        let ghost put = trees(new@);
                        out.append(&mut new);
                        assert(trees(out@) =~= before + put);
                    },
                    None => {
                        let done = fill(item, list);
                        out.push(done);
                        assert(trees(out@) =~= before + seq![done@]);
                    },
                }
                proof {
                    assert forall|s: Seq<char>|
                        in_items(all.take(i + 1), s) == 0 implies #[trigger] fill_for(list@, s)
                        == fill_for(first, s) by {
                        in_items_step(all, s, i);
                    }
                }
            }
            assert(all.take(all.len() as int) =~= all);
            let r = Node::Sequence(out);
            proof {
                tree_of_parts(r);
            }
            r
        },
        Node::Mapping(entries) => {
            let ghost all = entry_trees(entries@);
            let mut out: Vec<(Node, Node)> = Vec::new();
            for entry in it: entries.into_iter()
                invariant
                    it.seq() == entries@,
                    all == entry_trees(entries@),
                    tree == Tree::Mapping(all),
                    tree == node@,
                    fills == fills_of(first),
                    fits(first, tree),
                    out@.len() == it.index(),
                    forall|j: int|
                        0 <= j < out@.len() ==> (#[trigger] out@[j]).0@ == all[j].0 && out@[j].1@
                            == filled(all[j].1, fills),
                    forall|s: Seq<char>|
                        in_values(all.take(it.index() as int), s) == 0 ==> #[trigger] fill_for(
                            list@,
                            s,
                        ) == fill_for(first, s),
                    forall|s: Seq<char>| #[trigger]
                        fill_for(list@, s) is Some ==> fill_for(first, s) is Some,
            {
                let ghost i = it.index() as int;
                let ghost at_hand = list@;
                proof {
                    assert(all[i] == (entry.0@, entry.1@));
                    assert forall|s: Seq<char>| #[trigger]
                        occurrences(all[i].1, s) > 0 implies fill_for(at_hand, s) == fill_for(
                        first,
                        s,
                    ) by {
                        in_values_counts(all, s, i);
                        if fill_for(first, s) is Some {
                            assert(occurrences(tree, s) <= 1);
                            assert(in_values(all.take(i), s) == 0);
                        }
                    }
                    only_present_markers_matter(all[i].1, fills, fills_of(at_hand));
                    assert forall|s: Seq<char>| #[trigger]
                        fill_for(at_hand, s) is Some implies occurrences(all[i].1, s) <= 1 by {
                        in_values_counts(all, s, i);
                        assert(occurrences(tree, s) <= 1);
                    }
                    assert(decreases_to!(tree => tree->Mapping_0));
                    assert(decreases_to!(tree->Mapping_0 => tree->Mapping_0[i]));
                    assert(decreases_to!(tree->Mapping_0[i] => tree->Mapping_0[i].1));
                }
                let (key, value) = entry;
                let value = fill(value, list);
                out.push((key, value));
                proof {
                    assert forall|s: Seq<char>|
                        in_values(all.take(i + 1), s) == 0 implies #[trigger] fill_for(list@, s)
                        == fill_for(first, s) by {
                        in_values_step(all, s, i);
                    }
                }
            }
            assert(all.take(all.len() as int) =~= all);
            let r = Node::Mapping(out);
            proof {
                tree_of_parts(r);
                assert(entry_trees(out@) =~= filled(tree, fills)->Mapping_0);
            }
            r
        },
        Node::Tagged(tag, inner) => {
            assert(decreases_to!(tree => *tree->Tagged_1));
            proof {
                assert forall|s: Seq<char>| #[trigger]
                    fill_for(list@, s) is Some implies occurrences(inner@, s) <= 1 by {
                    assert(occurrences(tree, s) <= 1);
                }
            }
            let inner = fill(*inner, list);
            Node::Tagged(tag, Box::new(inner))
        },
        other => other,
    }
}

/// Replaces the one list item equal to `marker` with `items`.
///
/// # Errors
/// Returns [`RenderError::MarkerCount`] where the marker is not there exactly
/// once; `root` is then unchanged.
pub fn splice(root: &mut Node, marker: &str, items: Vec<Node>) -> (r: Result<(), RenderError>)
    ensures
        match (r, spliced(old(root)@, marker@, trees(items@))) {
            (Ok(_), Ok(tree)) => final(root)@ == tree,
            (Err(e), Err(failure)) => e@ == failure && *final(root) == *old(root),
            _ => false,
        },
{
    let marker = marker.to_owned();
    let found = count(root, &marker);
    if found != 1 {
        return Err(RenderError::MarkerCount { marker, found });
    }
    let ghost fills = one(marker@, trees(items@));
    let mut list: Vec<Fill> = Vec::new();
    list.push(Fill { marker, items });
    proof {
        reveal_with_fuel(fill_for, 2);
        assert(fills_of(list@) =~= fills);
    }
    let mut whole = Node::Null;
    std::mem::swap(root, &mut whole);
    *root = fill(whole, &mut list);
    Ok(())
}

/// A tree that holds no marker is left alone.
pub proof fn tree_without_markers_is_kept(tree: Tree, fills: Fills)
    requires
        forall|s: Seq<char>| #[trigger] fills(s) is Some ==> occurrences(tree, s) == 0,
    ensures
        filled(tree, fills) == tree,
    decreases tree,
{
    match tree {
        Tree::Sequence(items) => {
            assert(decreases_to!(tree => items));
            items_without_markers_are_kept(items, fills);
        },
        Tree::Mapping(entries) => {
            assert forall|i: int| 0 <= i < entries.len() implies filled(
                (#[trigger] entries[i]).1,
                fills,
            ) == entries[i].1 by {
                assert(decreases_to!(entries => entries[i]));
                assert(decreases_to!(entries[i] => entries[i].1));
                assert forall|s: Seq<char>| #[trigger] fills(s) is Some implies occurrences(
                    entries[i].1,
                    s,
                ) == 0 by {
                    in_values_counts(entries, s, i);
                }
                tree_without_markers_is_kept(entries[i].1, fills);
            }
            assert(filled(tree, fills)->Mapping_0 =~= entries);
        },
        Tree::Tagged(_, inner) => {
            tree_without_markers_is_kept(*inner, fills);
        },
        _ => {},
    }
}

/// Items that hold no marker are left alone.
proof fn items_without_markers_are_kept(items: Seq<Tree>, fills: Fills)
    requires
        forall|s: Seq<char>| #[trigger] fills(s) is Some ==> in_items(items, s) == 0,
    ensures
        filled_items(items, fills) == items,
    decreases items,
{
    if items.len() > 0 {
        let (init, last) = (items.drop_last(), items.last());
        assert(decreases_to!(items => init));
        assert(decreases_to!(items => items[items.len() - 1]));
        items_without_markers_are_kept(init, fills);
        tree_without_markers_is_kept(last, fills);
        assert(put_for(last, fills) is None);
        assert(init + seq![last] =~= items);
    } else {
        assert(items =~= Seq::<Tree>::empty());
    }
}

proof fn filled_items_of_sum(a: Seq<Tree>, b: Seq<Tree>, fills: Fills)
    ensures
        filled_items(a + b, fills) == filled_items(a, fills) + filled_items(b, fills),
    decreases b.len(),
{
    if b.len() == 0 {
        assert(a + b =~= a);
        assert(filled_items(a, fills) + filled_items(b, fills) =~= filled_items(a, fills));
    } else {
        filled_items_of_sum(a, b.drop_last(), fills);
        assert((a + b).drop_last() =~= a + b.drop_last());
        assert((a + b).last() == b.last());
        let tail = match put_for(b.last(), fills) {
            Some(new) => new,
            None => seq![filled(b.last(), fills)],
        };
        let (x, y) = (filled_items(a, fills), filled_items(b.drop_last(), fills));
        assert(x + y + tail =~= x + (y + tail));
    }
}

proof fn in_items_of_sum(a: Seq<Tree>, b: Seq<Tree>, marker: Seq<char>)
    ensures
        in_items(a + b, marker) == in_items(a, marker) + in_items(b, marker),
    decreases b.len(),
{
    if b.len() == 0 {
        assert(a + b =~= a);
    } else {
        in_items_of_sum(a, b.drop_last(), marker);
        assert((a + b).drop_last() =~= a + b.drop_last());
        assert((a + b).last() == b.last());
    }
}

proof fn in_items_of_one(item: Tree, marker: Seq<char>)
    ensures
        in_items(seq![item], marker) == occurrences(item, marker) + (if item == Tree::Text(marker) {
            1nat
        } else {
            0nat
        }),
{
    let list = seq![item];
    assert(list.drop_last() =~= Seq::<Tree>::empty());
    assert(in_items(list.drop_last(), marker) == 0);
}

proof fn filled_items_of_one(item: Tree, fills: Fills)
    ensures
        filled_items(seq![item], fills) == match put_for(item, fills) {
            Some(new) => new,
            None => seq![filled(item, fills)],
        },
{
    let list = seq![item];
    assert(list.drop_last() =~= Seq::<Tree>::empty());
    assert(filled_items(list.drop_last(), fills) =~= Seq::<Tree>::empty());
    let new = match put_for(item, fills) {
        Some(new) => new,
        None => seq![filled(item, fills)],
    };
    assert(Seq::<Tree>::empty() + new =~= new);
}

proof fn times_zero_or_one(n: int, x: int)
    ensures
        n == 0 ==> n * x == 0,
        n == 1 ==> n * x == x,
{
    assert(n == 0 ==> n * x == 0) by (nonlinear_arith);
    assert(n == 1 ==> n * x == x) by (nonlinear_arith);
}

/// How many of `n` markers are strings equal to `o`, where the marker is `marker`.
spec fn own(marker: Seq<char>, o: Seq<char>, n: nat) -> nat {
    if o == marker {
        n
    } else {
        0
    }
}

/// A count of `other`, where it is a marker besides `marker`.
spec fn second(marker: Seq<char>, other: Seq<char>, n: nat) -> nat {
    if other == marker {
        0
    } else {
        n
    }
}

/// How the count of `o` changes where what [`both`] has takes the place of its
/// markers: it loses the markers that are `o`, and gains what is put in.
spec fn counts_add_up(
    then: nat,
    now: nat,
    n: nat,
    m: nat,
    marker: Seq<char>,
    items: Seq<Tree>,
    other: Seq<char>,
    more: Seq<Tree>,
    o: Seq<char>,
) -> bool {
    now + own(marker, o, n) + own(other, o, m) == then + n * in_items(items, o) + m * in_items(
        more,
        o,
    )
}

proof fn filled_counts(
    tree: Tree,
    marker: Seq<char>,
    items: Seq<Tree>,
    other: Seq<char>,
    more: Seq<Tree>,
    o: Seq<char>,
)
    ensures
        counts_add_up(
            occurrences(tree, o),
            occurrences(filled(tree, both(marker, items, other, more)), o),
            occurrences(tree, marker),
            second(marker, other, occurrences(tree, other)),
            marker,
            items,
            other,
            more,
            o,
        ),
    decreases tree,
{
    let fills = both(marker, items, other, more);
    match tree {
        Tree::Sequence(list) => {
            assert(decreases_to!(tree => list));
            filled_items_counts(list, marker, items, other, more, o);
        },
        Tree::Mapping(entries) => {
            assert(decreases_to!(tree => entries));
            let now = filled(tree, fills)->Mapping_0;
            filled_values_counts(entries, now, marker, items, other, more, o, entries.len() as int);
            assert(entries.take(entries.len() as int) =~= entries);
            assert(now.take(entries.len() as int) =~= now);
        },
        Tree::Tagged(_, inner) => {
            filled_counts(*inner, marker, items, other, more, o);
        },
        _ => {
            times_zero_or_one(0, in_items(items, o) as int);
            times_zero_or_one(0, in_items(more, o) as int);
        },
    }
}

proof fn filled_items_counts(
    list: Seq<Tree>,
    marker: Seq<char>,
    items: Seq<Tree>,
    other: Seq<char>,
    more: Seq<Tree>,
    o: Seq<char>,
)
    ensures
        counts_add_up(
            in_items(list, o),
            in_items(filled_items(list, both(marker, items, other, more)), o),
            in_items(list, marker),
            second(marker, other, in_items(list, other)),
            marker,
            items,
            other,
            more,
            o,
        ),
    decreases list,
{
    let fills = both(marker, items, other, more);
    if list.len() > 0 {
        let (init, last) = (list.drop_last(), list.last());
        assert(decreases_to!(list => init));
        assert(decreases_to!(list => list[list.len() - 1]));
        filled_items_counts(init, marker, items, other, more, o);
        filled_counts(last, marker, items, other, more, o);
        let tail = match put_for(last, fills) {
            Some(new) => new,
            None => seq![filled(last, fills)],
        };
        in_items_of_sum(filled_items(init, fills), tail, o);
        let (x, y) = (in_items(items, o) as int, in_items(more, o) as int);
        let n0 = in_items(init, marker) as int;
        let m0 = second(marker, other, in_items(init, other)) as int;
        let n1 = in_items(list, marker) - n0;
        let m1 = second(marker, other, in_items(list, other)) - m0;
        lemma_mul_is_distributive_add_other_way(x, n0, n1);
        lemma_mul_is_distributive_add_other_way(y, m0, m1);
        times_zero_or_one(n1, x);
        times_zero_or_one(m1, y);
        if put_for(last, fills) is None {
            in_items_of_one(filled(last, fills), o);
        } else {
            times_zero_or_one(occurrences(last, marker) as int, x);
        }
    } else {
        times_zero_or_one(0, in_items(items, o) as int);
        times_zero_or_one(0, in_items(more, o) as int);
    }
}

proof fn filled_values_counts(
    entries: Seq<(Tree, Tree)>,
    now: Seq<(Tree, Tree)>,
    marker: Seq<char>,
    items: Seq<Tree>,
    other: Seq<char>,
    more: Seq<Tree>,
    o: Seq<char>,
    n: int,
)
    requires
        0 <= n <= entries.len(),
        now.len() == entries.len(),
        forall|i: int|
            0 <= i < entries.len() ==> (#[trigger] now[i]).1 == filled(
                entries[i].1,
                both(marker, items, other, more),
            ),
    ensures
        counts_add_up(
            in_values(entries.take(n), o),
            in_values(now.take(n), o),
            in_values(entries.take(n), marker),
            second(marker, other, in_values(entries.take(n), other)),
            marker,
            items,
            other,
            more,
            o,
        ),
    decreases entries, n,
{
    if n > 0 {
        let i = n - 1;
        filled_values_counts(entries, now, marker, items, other, more, o, i);
        in_values_step(entries, o, i);
        in_values_step(now, o, i);
        in_values_step(entries, marker, i);
        in_values_step(entries, other, i);
        assert(decreases_to!(entries => entries[i]));
        assert(decreases_to!(entries[i] => entries[i].1));
        filled_counts(entries[i].1, marker, items, other, more, o);
        assert(now[i].1 == filled(entries[i].1, both(marker, items, other, more)));
        lemma_mul_is_distributive_add_other_way(
            in_items(items, o) as int,
            in_values(entries.take(i), marker) as int,
            occurrences(entries[i].1, marker) as int,
        );
        lemma_mul_is_distributive_add_other_way(
            in_items(more, o) as int,
            second(marker, other, in_values(entries.take(i), other)) as int,
            second(marker, other, occurrences(entries[i].1, other)) as int,
        );
    } else {
        times_zero_or_one(0, in_items(items, o) as int);
        times_zero_or_one(0, in_items(more, o) as int);
    }
}

/// Where two markers are each in the tree once, their replacement takes them out
/// and puts in what [`both`] has for them, and otherwise neither adds nor drops an
/// item: so it is with the count of any string among the list items.
pub proof fn filling_only_adds_the_items(
    tree: Tree,
    marker: Seq<char>,
    items: Seq<Tree>,
    other: Seq<char>,
    more: Seq<Tree>,
    o: Seq<char>,
)
    requires
        marker != other,
        occurrences(tree, marker) == 1,
        occurrences(tree, other) == 1,
    ensures
        occurrences(filled(tree, both(marker, items, other, more)), o) == occurrences(tree, o)
            + in_items(items, o) + in_items(more, o) - (if o == marker || o == other {
            1int
        } else {
            0int
        }),
{
    filled_counts(tree, marker, items, other, more, o);
    times_zero_or_one(1, in_items(items, o) as int);
    times_zero_or_one(1, in_items(more, o) as int);
}

/// A splice takes out one marker and puts in the items, and otherwise neither
/// adds nor drops an item: the count of any string among the list items changes
/// by what the items hold of it.
pub proof fn splice_only_adds_the_items(
    root: Tree,
    marker: Seq<char>,
    items: Seq<Tree>,
    other: Seq<char>,
)
    requires
        occurrences(root, marker) == 1,
    ensures
        spliced(root, marker, items) is Ok,
        occurrences(spliced(root, marker, items)->Ok_0, other) == occurrences(root, other)
            + in_items(items, other) - (if other == marker {
            1int
        } else {
            0int
        }),
{
    assert(one(marker, items) =~= both(marker, items, marker, Seq::empty()));
    filled_counts(root, marker, items, marker, Seq::empty(), other);
    times_zero_or_one(1, in_items(items, other) as int);
    times_zero_or_one(0, in_items(Seq::empty(), other) as int);
}

/// What stands at `path` in the tree: each step picks an item of a list, the value
/// of an entry of a mapping, or, as step zero, what a tag is on.
pub open spec fn at_path(tree: Tree, path: Seq<int>) -> Option<Tree>
    decreases path.len(),
{
    if path.len() == 0 {
        Some(tree)
    } else {
        let k = path[0];
        match tree {
            Tree::Sequence(items) => if 0 <= k < items.len() {
                at_path(items[k], path.skip(1))
            } else {
                None
            },
            Tree::Mapping(entries) => if 0 <= k < entries.len() {
                at_path(entries[k].1, path.skip(1))
            } else {
                None
            },
            Tree::Tagged(_, inner) => if k == 0 {
                at_path(*inner, path.skip(1))
            } else {
                None
            },
            _ => None,
        }
    }
}

/// The tree with `new` in place of what stands at `path`.
pub open spec fn changed_at(tree: Tree, path: Seq<int>, new: Tree) -> Tree
    decreases path.len(),
{
    if path.len() == 0 {
        new
    } else {
        let k = path[0];
        match tree {
            Tree::Sequence(items) => Tree::Sequence(
                items.update(k, changed_at(items[k], path.skip(1), new)),
            ),
            Tree::Mapping(entries) => Tree::Mapping(
                entries.update(k, (entries[k].0, changed_at(entries[k].1, path.skip(1), new))),
            ),
            Tree::Tagged(tag, inner) => Tree::Tagged(
                tag,
                Box::new(changed_at(*inner, path.skip(1), new)),
            ),
            _ => tree,
        }
    }
}

/// A marker at some path counts.
proof fn marker_at_path_counts(tree: Tree, path: Seq<int>, at: int, marker: Seq<char>)
    requires
        at_path(tree, path) matches Some(Tree::Sequence(list)) && 0 <= at < list.len() && list[at]
            == Tree::Text(marker),
    ensures
        occurrences(tree, marker) >= 1,
    decreases path.len(),
{
    if path.len() == 0 {
        in_items_counts(tree->Sequence_0, marker, at);
    } else {
        let k = path[0];
        match tree {
            Tree::Sequence(items) => {
                marker_at_path_counts(items[k], path.skip(1), at, marker);
                in_items_counts(items, marker, k);
            },
            Tree::Mapping(entries) => {
                marker_at_path_counts(entries[k].1, path.skip(1), at, marker);
                in_values_counts(entries, marker, k);
            },
            Tree::Tagged(_, inner) => {
                marker_at_path_counts(*inner, path.skip(1), at, marker);
            },
            _ => {},
        }
    }
}

/// Where all of a mapping's count stands in one value, the others have none of it.
proof fn other_values_have_none(entries: Seq<(Tree, Tree)>, marker: Seq<char>, k: int, i: int)
    requires
        0 <= k < entries.len(),
        0 <= i < entries.len(),
        i != k,
        in_values(entries, marker) <= 1,
        occurrences(entries[k].1, marker) >= 1,
    ensures
        occurrences(entries[i].1, marker) == 0,
{
    let (x, y) = if i < k {
        (i, k)
    } else {
        (k, i)
    };
    in_values_counts(entries, marker, y);
    in_values_step(entries, marker, x);
    in_values_grows(entries, marker, x + 1, y);
}

proof fn counted_item(items: Seq<Tree>, marker: Seq<char>) -> (k: int)
    requires
        in_items(items, marker) >= 1,
    ensures
        0 <= k < items.len(),
        occurrences(items[k], marker) >= 1 || items[k] == Tree::Text(marker),
    decreases items.len(),
{
    if occurrences(items.last(), marker) >= 1 || items.last() == Tree::Text(marker) {
        items.len() - 1
    } else {
        counted_item(items.drop_last(), marker)
    }
}

proof fn counted_value(entries: Seq<(Tree, Tree)>, marker: Seq<char>) -> (k: int)
    requires
        in_values(entries, marker) >= 1,
    ensures
        0 <= k < entries.len(),
        occurrences(entries[k].1, marker) >= 1,
    decreases entries.len(),
{
    if occurrences(entries.last().1, marker) >= 1 {
        entries.len() - 1
    } else {
        counted_value(entries.drop_last(), marker)
    }
}

/// A marker that counts stands in a list at some path.
pub proof fn marker_has_a_place(tree: Tree, marker: Seq<char>) -> (place: (Seq<int>, int))
    requires
        occurrences(tree, marker) >= 1,
    ensures
        at_path(tree, place.0) matches Some(Tree::Sequence(list)) && 0 <= place.1 < list.len()
            && list[place.1] == Tree::Text(marker),
    decreases tree,
{
    match tree {
        Tree::Sequence(items) => {
            let k = counted_item(items, marker);
            if items[k] == Tree::Text(marker) {
                (Seq::empty(), k)
            } else {
                let (path, at) = marker_has_a_place(items[k], marker);
                assert((seq![k] + path).skip(1) =~= path);
                (seq![k] + path, at)
            }
        },
        Tree::Mapping(entries) => {
            let k = counted_value(entries, marker);
            assert(decreases_to!(entries => entries[k]));
            assert(decreases_to!(entries[k] => entries[k].1));
            let (path, at) = marker_has_a_place(entries[k].1, marker);
            assert((seq![k] + path).skip(1) =~= path);
            (seq![k] + path, at)
        },
        Tree::Tagged(_, inner) => {
            let (path, at) = marker_has_a_place(*inner, marker);
            assert((seq![0int] + path).skip(1) =~= path);
            (seq![0int] + path, at)
        },
        _ => (Seq::empty(), 0),
    }
}

/// The list with `items` in place of its item at `at`, where that is its only marker.
proof fn filled_list(list: Seq<Tree>, at: int, marker: Seq<char>, items: Seq<Tree>)
    requires
        0 <= at < list.len(),
        list[at] == Tree::Text(marker),
        in_items(list, marker) <= 1,
    ensures
        filled_items(list, one(marker, items)) == list.take(at) + items + list.skip(at + 1),
{
    let fills = one(marker, items);
    let (head, tail) = (list.take(at), list.skip(at + 1));
    let mid = seq![list[at]];
    assert(list =~= head + mid + tail);
    in_items_of_sum(head, mid, marker);
    in_items_of_sum(head + mid, tail, marker);
    in_items_counts(mid, marker, 0);
    items_without_markers_are_kept(head, fills);
    items_without_markers_are_kept(tail, fills);
    filled_items_of_sum(head, mid, fills);
    filled_items_of_sum(head + mid, tail, fills);
    filled_items_of_one(list[at], fills);
}

proof fn filled_at_path(tree: Tree, path: Seq<int>, at: int, marker: Seq<char>, items: Seq<Tree>)
    requires
        at_path(tree, path) matches Some(Tree::Sequence(list)) && 0 <= at < list.len() && list[at]
            == Tree::Text(marker),
        occurrences(tree, marker) <= 1,
    ensures
        ({
            let list = at_path(tree, path)->0->Sequence_0;
            let now = list.take(at) + items + list.skip(at + 1);
            filled(tree, one(marker, items)) == changed_at(tree, path, Tree::Sequence(now))
        }),
    decreases path.len(),
{
    let fills = one(marker, items);
    let list = at_path(tree, path)->0->Sequence_0;
    let now = Tree::Sequence(list.take(at) + items + list.skip(at + 1));
    if path.len() == 0 {
        filled_list(list, at, marker, items);
    } else {
        let k = path[0];
        let rest = path.skip(1);
        match tree {
            Tree::Sequence(old) => {
                marker_at_path_counts(old[k], rest, at, marker);
                in_items_counts(old, marker, k);
                filled_at_path(old[k], rest, at, marker, items);
                let (head, mid, tail) = (old.take(k), seq![old[k]], old.skip(k + 1));
                assert(old =~= head + mid + tail);
                in_items_of_sum(head, mid, marker);
                in_items_of_sum(head + mid, tail, marker);
                in_items_counts(mid, marker, 0);
                items_without_markers_are_kept(head, fills);
                items_without_markers_are_kept(tail, fills);
                filled_items_of_sum(head, mid, fills);
                filled_items_of_sum(head + mid, tail, fills);
                assert(old[k] != Tree::Text(marker));
                assert(put_for(old[k], fills) is None);
                filled_items_of_one(old[k], fills);
                assert(filled_items(old, fills) =~= old.update(k, changed_at(old[k], rest, now)));
            },
            Tree::Mapping(entries) => {
                marker_at_path_counts(entries[k].1, rest, at, marker);
                in_values_counts(entries, marker, k);
                filled_at_path(entries[k].1, rest, at, marker, items);
                assert forall|i: int| 0 <= i < entries.len() && i != k implies filled(
                    (#[trigger] entries[i]).1,
                    fills,
                ) == entries[i].1 by {
                    other_values_have_none(entries, marker, k, i);
                    tree_without_markers_is_kept(entries[i].1, fills);
                }
                assert(filled(tree, fills)->Mapping_0 =~= entries.update(
                    k,
                    (entries[k].0, changed_at(entries[k].1, rest, now)),
                ));
            },
            Tree::Tagged(_, inner) => {
                filled_at_path(*inner, rest, at, marker, items);
            },
            _ => {},
        }
    }
}

/// The items stand between what stood before and behind the marker, at whatever
/// depth its list stands, and nothing else in the tree changes.
pub proof fn items_stand_where_the_marker_stood(
    root: Tree,
    path: Seq<int>,
    at: int,
    marker: Seq<char>,
    items: Seq<Tree>,
)
    requires
        occurrences(root, marker) == 1,
        at_path(root, path) matches Some(Tree::Sequence(list)) && 0 <= at < list.len() && list[at]
            == Tree::Text(marker),
    ensures
        ({
            let list = at_path(root, path)->0->Sequence_0;
            let now = list.take(at) + items + list.skip(at + 1);
            spliced(root, marker, items) == Ok::<Tree, Failure>(
                changed_at(root, path, Tree::Sequence(now)),
            )
        }),
{
    filled_at_path(root, path, at, marker, items);
}

/// Where the item at `k` of a list stands once the markers before it are replaced.
pub open spec fn moved_to(items: Seq<Tree>, k: int, fills: Fills) -> int {
    filled_items(items.take(k), fills).len() as int
}

/// The path to what stood at `path`, once the markers are replaced.
pub open spec fn moved(tree: Tree, path: Seq<int>, fills: Fills) -> Seq<int>
    decreases path.len(),
{
    if path.len() == 0 {
        path
    } else {
        let (k, rest) = (path[0], path.skip(1));
        match tree {
            Tree::Sequence(items) => seq![moved_to(items, k, fills)] + moved(items[k], rest, fills),
            Tree::Mapping(entries) => seq![k] + moved(entries[k].1, rest, fills),
            Tree::Tagged(_, inner) => seq![k] + moved(*inner, rest, fills),
            _ => path,
        }
    }
}

/// Where in the filled list stands what an item of the list becomes.
proof fn item_moves(items: Seq<Tree>, k: int, fills: Fills)
    requires
        0 <= k < items.len(),
    ensures
        ({
            let now = filled_items(items, fills);
            let at = moved_to(items, k, fills);
            match put_for(items[k], fills) {
                Some(new) => at + new.len() <= now.len() && now.subrange(at, at + new.len()) == new,
                None => at < now.len() && now[at] == filled(items[k], fills),
            }
        }),
{
    let (head, mid, tail) = (items.take(k), seq![items[k]], items.skip(k + 1));
    assert(items =~= head + mid + tail);
    filled_items_of_sum(head, mid, fills);
    filled_items_of_sum(head + mid, tail, fills);
    filled_items_of_one(items[k], fills);
    let now = filled_items(items, fills);
    let at = moved_to(items, k, fills);
    if let Some(new) = put_for(items[k], fills) {
        assert(now.subrange(at, at + new.len()) =~= new);
    }
}

/// Every part of a tree that is not a marker is still there, filled, once the
/// markers are replaced; only its place among the items of a list can change.
pub proof fn parts_are_kept(tree: Tree, path: Seq<int>, fills: Fills)
    requires
        at_path(tree, path) matches Some(part) && put_for(part, fills) is None,
    ensures
        at_path(filled(tree, fills), moved(tree, path, fills)) == Some(
            filled(at_path(tree, path)->0, fills),
        ),
    decreases path.len(),
{
    if path.len() > 0 {
        let (k, rest) = (path[0], path.skip(1));
        let way = moved(tree, path, fills);
        match tree {
            Tree::Sequence(items) => {
                item_moves(items, k, fills);
                if rest.len() == 0 {
                    assert(at_path(items[k], rest) == Some(items[k]));
                }
                parts_are_kept(items[k], rest, fills);
                assert(way.skip(1) =~= moved(items[k], rest, fills));
            },
            Tree::Mapping(entries) => {
                parts_are_kept(entries[k].1, rest, fills);
                assert(way.skip(1) =~= moved(entries[k].1, rest, fills));
            },
            Tree::Tagged(_, inner) => {
                parts_are_kept(*inner, rest, fills);
                assert(way.skip(1) =~= moved(*inner, rest, fills));
            },
            _ => {},
        }
    }
}

/// Where a marker stood in a list, what is put in for it stands in a row.
pub proof fn items_stand_in_a_row(tree: Tree, path: Seq<int>, at: int, fills: Fills)
    requires
        at_path(tree, path) matches Some(Tree::Sequence(list)) && 0 <= at < list.len() && put_for(
            list[at],
            fills,
        ) is Some,
    ensures
        ({
            let list = at_path(tree, path)->0->Sequence_0;
            let new = put_for(list[at], fills)->0;
            let start = moved_to(list, at, fills);
            at_path(filled(tree, fills), moved(tree, path, fills)) matches Some(
                Tree::Sequence(now),
            ) && start + new.len() <= now.len() && now.subrange(start, start + new.len()) == new
        }),
{
    parts_are_kept(tree, path, fills);
    item_moves(at_path(tree, path)->0->Sequence_0, at, fills);
}

/// A marker is used up: once items that do not hold it have taken its place, it
/// is gone, and a second splice at it is refused.
pub proof fn marker_is_used_up(root: Tree, marker: Seq<char>, items: Seq<Tree>, more: Seq<Tree>)
    requires
        occurrences(root, marker) == 1,
        in_items(items, marker) == 0,
    ensures
        spliced(root, marker, items) is Ok,
        spliced(spliced(root, marker, items)->Ok_0, marker, more) == Err::<Tree, Failure>(
            Failure::MarkerCount { marker, found: 0 },
        ),
{
    splice_only_adds_the_items(root, marker, items, marker);
}

/// Replacing markers keeps keys distinct.
pub proof fn filling_keeps_keys_distinct(tree: Tree, fills: Fills)
    requires
        well_keyed(tree),
        forall|s: Seq<char>, i: int|
            fills(s) is Some && 0 <= i < fills(s)->0.len() ==> well_keyed(
                #[trigger] fills(s)->0[i],
            ),
    ensures
        well_keyed(filled(tree, fills)),
    decreases tree,
{
    match tree {
        Tree::Sequence(items) => {
            assert(decreases_to!(tree => items));
            filled_items_are_well_keyed(items, fills);
            let now = filled_items(items, fills);
            assert(filled(tree, fills) == Tree::Sequence(now));
            assert(well_keyed(Tree::Sequence(now)));
        },
        Tree::Mapping(entries) => {
            let now = filled(tree, fills)->Mapping_0;
            assert forall|i: int| 0 <= i < now.len() implies well_keyed((#[trigger] now[i]).0)
                && well_keyed(now[i].1) by {
                assert(well_keyed(entries[i].0));
                assert(decreases_to!(entries => entries[i]));
                assert(decreases_to!(entries[i] => entries[i].1));
                filling_keeps_keys_distinct(entries[i].1, fills);
            }
        },
        Tree::Tagged(_, inner) => {
            filling_keeps_keys_distinct(*inner, fills);
        },
        _ => {},
    }
}

proof fn filled_items_are_well_keyed(items: Seq<Tree>, fills: Fills)
    requires
        forall|i: int| 0 <= i < items.len() ==> well_keyed(#[trigger] items[i]),
        forall|s: Seq<char>, i: int|
            fills(s) is Some && 0 <= i < fills(s)->0.len() ==> well_keyed(
                #[trigger] fills(s)->0[i],
            ),
    ensures
        forall|i: int|
            0 <= i < filled_items(items, fills).len() ==> well_keyed(
                #[trigger] filled_items(items, fills)[i],
            ),
    decreases items,
{
    if items.len() > 0 {
        let (init, last) = (items.drop_last(), items.last());
        assert(decreases_to!(items => init));
        assert(decreases_to!(items => items[items.len() - 1]));
        assert(well_keyed(items[items.len() - 1]));
        filled_items_are_well_keyed(init, fills);
        filling_keeps_keys_distinct(last, fills);
        let before = filled_items(init, fills);
        let now = filled_items(items, fills);
        assert forall|i: int| 0 <= i < now.len() implies well_keyed(#[trigger] now[i]) by {
            if i < before.len() {
                assert(now[i] == before[i]);
            } else if let Some(new) = put_for(last, fills) {
                let s = last->Text_0;
                assert(now[i] == fills(s)->0[i - before.len()]);
            } else {
                assert(now[i] == filled(last, fills));
            }
        }
    }
}

/// A splice keeps keys distinct.
pub proof fn splice_keeps_keys_distinct(root: Tree, marker: Seq<char>, items: Seq<Tree>)
    requires
        well_keyed(root),
        forall|i: int| 0 <= i < items.len() ==> well_keyed(#[trigger] items[i]),
        spliced(root, marker, items) is Ok,
    ensures
        well_keyed(spliced(root, marker, items)->Ok_0),
{
    filling_keeps_keys_distinct(root, one(marker, items));
}

proof fn in_values_of_sum(a: Seq<(Tree, Tree)>, b: Seq<(Tree, Tree)>, marker: Seq<char>)
    ensures
        in_values(a + b, marker) == in_values(a, marker) + in_values(b, marker),
    decreases b.len(),
{
    if b.len() == 0 {
        assert(a + b =~= a);
    } else {
        in_values_of_sum(a, b.drop_last(), marker);
        assert((a + b).drop_last() =~= a + b.drop_last());
        assert((a + b).last() == b.last());
    }
}

/// How markers are counted. The count of a list or a mapping is that of its parts. A
/// string counts where it is an item of a list, and only there: not as the whole
/// tree, as a value, or as a key.
pub proof fn markers_are_counted_by_parts(
    a: Seq<Tree>,
    b: Seq<Tree>,
    item: Tree,
    c: Seq<(Tree, Tree)>,
    d: Seq<(Tree, Tree)>,
    key: Tree,
    tag: serde_yaml_ng::value::Tag,
    marker: Seq<char>,
)
    ensures
        occurrences(Tree::Sequence(Seq::empty()), marker) == 0,
        occurrences(Tree::Sequence(a + b), marker) == occurrences(Tree::Sequence(a), marker)
            + occurrences(Tree::Sequence(b), marker),
        occurrences(Tree::Sequence(seq![item]), marker) == occurrences(item, marker) + (if item
            == Tree::Text(marker) {
            1nat
        } else {
            0nat
        }),
        occurrences(Tree::Mapping(Seq::empty()), marker) == 0,
        occurrences(Tree::Mapping(c + d), marker) == occurrences(Tree::Mapping(c), marker)
            + occurrences(Tree::Mapping(d), marker),
        occurrences(Tree::Mapping(seq![(key, item)]), marker) == occurrences(item, marker),
        occurrences(Tree::Tagged(tag, Box::new(item)), marker) == occurrences(item, marker),
        !(item is Sequence) && !(item is Mapping) && !(item is Tagged) ==> occurrences(item, marker)
            == 0,
        in_items(a, marker) == occurrences(Tree::Sequence(a), marker),
{
    in_items_of_sum(a, b, marker);
    in_items_of_one(item, marker);
    in_values_of_sum(c, d, marker);
    let entry = seq![(key, item)];
    assert(entry.drop_last() =~= Seq::<(Tree, Tree)>::empty());
    assert(in_values(entry.drop_last(), marker) == 0);
    assert(in_items(Seq::<Tree>::empty(), marker) == 0);
    assert(in_values(Seq::<(Tree, Tree)>::empty(), marker) == 0);
    assert(occurrences(Tree::Mapping(entry), marker) == in_values(entry, marker));
    assert(occurrences(Tree::Sequence(seq![item]), marker) == in_items(seq![item], marker));
}

/// How markers are replaced. A list or a mapping is filled part by part, in order. An
/// item of a list that is a marker gives way to what is put in for it; all else
/// stays, and so do keys and tags.
pub proof fn markers_are_replaced_by_parts(
    a: Seq<Tree>,
    b: Seq<Tree>,
    item: Tree,
    c: Seq<(Tree, Tree)>,
    d: Seq<(Tree, Tree)>,
    key: Tree,
    tag: serde_yaml_ng::value::Tag,
    fills: Fills,
)
    ensures
        filled(Tree::Sequence(Seq::empty()), fills) == Tree::Sequence(Seq::empty()),
        filled(Tree::Sequence(a + b), fills) == Tree::Sequence(
            filled(Tree::Sequence(a), fills)->Sequence_0 + filled(
                Tree::Sequence(b),
                fills,
            )->Sequence_0,
        ),
        filled(Tree::Sequence(seq![item]), fills) == (match item {
            Tree::Text(s) => match fills(s) {
                Some(new) => Tree::Sequence(new),
                None => Tree::Sequence(seq![item]),
            },
            _ => Tree::Sequence(seq![filled(item, fills)]),
        }),
        filled(Tree::Mapping(c + d), fills) == Tree::Mapping(
            filled(Tree::Mapping(c), fills)->Mapping_0 + filled(
                Tree::Mapping(d),
                fills,
            )->Mapping_0,
        ),
        filled(Tree::Mapping(Seq::empty()), fills) == Tree::Mapping(Seq::empty()),
        filled(Tree::Mapping(seq![(key, item)]), fills) == Tree::Mapping(
            seq![(key, filled(item, fills))],
        ),
        filled(Tree::Tagged(tag, Box::new(item)), fills) == Tree::Tagged(
            tag,
            Box::new(filled(item, fills)),
        ),
        !(item is Sequence) && !(item is Mapping) && !(item is Tagged) ==> filled(item, fills)
            == item,
        filled_items(a, fills) == filled(Tree::Sequence(a), fills)->Sequence_0,
{
    filled_items_of_sum(a, b, fills);
    filled_items_of_one(item, fills);
    let (x, y) = (filled(Tree::Mapping(c), fills), filled(Tree::Mapping(d), fills));
    assert(filled(Tree::Mapping(c + d), fills)->Mapping_0 =~= x->Mapping_0 + y->Mapping_0);
    let none = Seq::<(Tree, Tree)>::empty();
    assert(filled(Tree::Mapping(none), fills)->Mapping_0 =~= none);
    let entry = seq![(key, item)];
    assert(filled(Tree::Mapping(entry), fills)->Mapping_0 =~= seq![(key, filled(item, fills))]);
    assert(filled_items(Seq::<Tree>::empty(), fills) =~= Seq::<Tree>::empty());
    assert(filled(Tree::Sequence(seq![item]), fills) == Tree::Sequence(
        filled_items(seq![item], fills),
    ));
}

/// What is put in for which marker.
pub proof fn each_marker_has_its_items(
    marker: Seq<char>,
    items: Seq<Tree>,
    other: Seq<char>,
    more: Seq<Tree>,
    s: Seq<char>,
)
    ensures
        one(marker, items)(marker) == Some(items),
        s != marker ==> one(marker, items)(s) is None,
        both(marker, items, other, more)(marker) == Some(items),
        marker != other ==> both(marker, items, other, more)(other) == Some(more),
        s != marker && s != other ==> both(marker, items, other, more)(s) is None,
{
}

/// When a splice is refused, and with what: the number of markers, as far as a
/// machine word can tell it.
pub proof fn splice_needs_the_marker_once(root: Tree, marker: Seq<char>, items: Seq<Tree>)
    ensures
        spliced(root, marker, items) is Ok <==> occurrences(root, marker) == 1,
        occurrences(root, marker) != 1 && occurrences(root, marker) <= usize::MAX ==> spliced(
            root,
            marker,
            items,
        ) == Err::<Tree, Failure>(
            Failure::MarkerCount { marker, found: occurrences(root, marker) },
        ),
        occurrences(root, marker) > usize::MAX ==> spliced(root, marker, items) == Err::<
            Tree,
            Failure,
        >(Failure::MarkerCount { marker, found: usize::MAX as nat }),
        forall|n: nat| n <= usize::MAX ==> #[trigger] capped(n) == n,
        forall|n: nat| n > usize::MAX ==> #[trigger] capped(n) == usize::MAX,
{
}

/// What a path leads to, step by step.
pub proof fn paths_go_step_by_step(
    items: Seq<Tree>,
    entries: Seq<(Tree, Tree)>,
    tag: serde_yaml_ng::value::Tag,
    tree: Tree,
    k: int,
    rest: Seq<int>,
)
    ensures
        at_path(tree, Seq::empty()) == Some(tree),
        0 <= k < items.len() ==> at_path(Tree::Sequence(items), seq![k] + rest) == at_path(
            items[k],
            rest,
        ),
        0 <= k < entries.len() ==> at_path(Tree::Mapping(entries), seq![k] + rest) == at_path(
            entries[k].1,
            rest,
        ),
        at_path(Tree::Tagged(tag, Box::new(tree)), seq![0int] + rest) == at_path(tree, rest),
{
    assert((seq![k] + rest).skip(1) =~= rest);
    assert((seq![0int] + rest).skip(1) =~= rest);
}

/// A list with a marker at `at`, once filled: what comes of the items before it, what
/// is put in for it, and what comes of the items behind it.
pub proof fn items_between(list: Seq<Tree>, at: int, fills: Fills, new: Seq<Tree>)
    requires
        0 <= at < list.len(),
        list[at] matches Tree::Text(s) && fills(s) == Some(new),
    ensures
        filled_items(list, fills) == filled_items(list.take(at), fills) + new + filled_items(
            list.skip(at + 1),
            fills,
        ),
{
    let (head, mid, tail) = (list.take(at), seq![list[at]], list.skip(at + 1));
    assert(list =~= head + mid + tail);
    filled_items_of_sum(head, mid, fills);
    filled_items_of_sum(head + mid, tail, fills);
    filled_items_of_one(list[at], fills);
}

} // verus!
