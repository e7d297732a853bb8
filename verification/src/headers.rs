//! The headers that every upstream route removes before forwarding.

use vstd::prelude::*;

use crate::error::{Failure, RenderError};
use crate::node::{clash, entry_trees, keys_distinct, tree_of_parts, trees, well_keyed, Node, Tree};
use crate::splice::{is_text, position};

verus! {

/// Headers every upstream route removes before forwarding. The Lua filter
/// already strips `x-gm-*` except the route discriminator; the route-level
/// list is the second layer, and the only one that removes `x-gm-provider`.
pub const GM_INTERNAL_HEADERS: [&'static str; 6] = [
    "x-gm-request-id",
    "x-gm-gateway-sig",
    "x-gm-product",
    "x-gm-node-key",
    "x-gm-provider",
    "x-gm-upstream-slot",
];

/// The key of a route's list of headers to remove.
pub const HEADERS_KEY: &'static str = "request_headers_to_remove";

/// The internal headers as strings of a list.
pub open spec fn internal_headers() -> Seq<Tree> {
    Seq::new(6, |i: int| Tree::Text(GM_INTERNAL_HEADERS@[i]@))
}

/// The list with those internal headers behind it that it lacks.
pub open spec fn with_internal(list: Seq<Tree>) -> Seq<Tree> {
    list + internal_headers().filter(|header: Tree| !list.contains(header))
}

/// Which entry has the key `key`.
pub open spec fn entry_index(entries: Seq<(Tree, Tree)>, key: Seq<char>) -> Option<int> {
    keys(entries).index_of_first(Tree::Text(key))
}

/// The keys of the entries.
pub open spec fn keys(entries: Seq<(Tree, Tree)>) -> Seq<Tree> {
    Seq::new(entries.len(), |i: int| entries[i].0)
}

/// The entries without the one at `at`, whose place the last one takes.
pub open spec fn without_entry(entries: Seq<(Tree, Tree)>, at: int) -> Seq<(Tree, Tree)> {
    entries.update(at, entries.last()).drop_last()
}

/// What [`add_internal_header_strip`] makes of a route of `provider`. The list of
/// headers to remove becomes the route's last entry.
pub open spec fn stripped(route: Tree, provider: Seq<char>) -> Result<Tree, Failure> {
    match route {
        Tree::Mapping(entries) => match entry_index(entries, HEADERS_KEY@) {
            None => Ok(with_list(entries, Seq::empty())),
            Some(at) => match entries[at].1 {
                Tree::Sequence(list) => Ok(with_list(without_entry(entries, at), list)),
                _ => Err(Failure::HeadersNotList { provider }),
            },
        },
        _ => Err(Failure::RouteNotMapping { provider }),
    }
}

/// The mapping of the entries with the list of headers, completed, behind them.
pub open spec fn with_list(entries: Seq<(Tree, Tree)>, list: Seq<Tree>) -> Tree {
    Tree::Mapping(entries.push((Tree::Text(HEADERS_KEY@), Tree::Sequence(with_internal(list)))))
}

/// No internal header is listed twice.
proof fn internal_headers_are_distinct(i: int, j: int)
    requires
        0 <= i < j < 6,
    ensures
        internal_headers()[i] != internal_headers()[j],
{
    reveal_strlit("x-gm-request-id");
    reveal_strlit("x-gm-gateway-sig");
    reveal_strlit("x-gm-product");
    reveal_strlit("x-gm-node-key");
    reveal_strlit("x-gm-provider");
    reveal_strlit("x-gm-upstream-slot");
    assert("x-gm-node-key"@[5] != "x-gm-provider"@[5]);
    let all = internal_headers();
    assert(all[0]->Text_0 == "x-gm-request-id"@);
    assert(all[1]->Text_0 == "x-gm-gateway-sig"@);
    assert(all[2]->Text_0 == "x-gm-product"@);
    assert(all[3]->Text_0 == "x-gm-node-key"@);
    assert(all[4]->Text_0 == "x-gm-provider"@);
    assert(all[5]->Text_0 == "x-gm-upstream-slot"@);
}

proof fn filter_step<A>(s: Seq<A>, keep: spec_fn(A) -> bool, k: int)
    requires
        0 <= k < s.len(),
    ensures
        s.take(k + 1).filter(keep) == if keep(s[k]) {
            s.take(k).filter(keep).push(s[k])
        } else {
            s.take(k).filter(keep)
        },
{
    reveal(Seq::filter);
    assert(s.take(k + 1).drop_last() =~= s.take(k));
}

proof fn filter_keeps_only(s: Seq<Tree>, keep: spec_fn(Tree) -> bool, x: Tree)
    ensures
        s.filter(keep).contains(x) <==> s.contains(x) && keep(x),
    decreases s.len(),
{
    reveal(Seq::filter);
    if s.len() > 0 {
        let (init, last) = (s.drop_last(), s.last());
        filter_keeps_only(init, keep, x);
        assert(s =~= init.push(last));
        assert(s.contains(x) <==> init.contains(x) || x == last) by {
            if s.contains(x) {
                let i = choose|i: int| 0 <= i < s.len() && s[i] == x;
                if i < init.len() {
                    assert(init[i] == x);
                }
            }
            if init.contains(x) {
                let i = choose|i: int| 0 <= i < init.len() && init[i] == x;
                assert(s[i] == x);
            }
            assert(s[s.len() - 1] == last);
        }
        let kept = init.filter(keep);
        if keep(last) {
            let all = kept.push(last);
            if kept.contains(x) {
                let i = choose|i: int| 0 <= i < kept.len() && kept[i] == x;
                assert(all[i] == x);
            }
            assert(all[all.len() - 1] == last);
            if all.contains(x) && x != last {
                let i = choose|i: int| 0 <= i < all.len() && all[i] == x;
                assert(kept[i] == x);
            }
        }
    }
}

/// Adds the internal headers that the list lacks.
fn add_internal(list: &mut Vec<Node>)
    ensures
        trees(final(list)@) == with_internal(trees(old(list)@)),
{
    let ghost before = trees(list@);
    let ghost all = internal_headers();
    let ghost keep = |header: Tree| !before.contains(header);
    let mut k: usize = 0;
    proof {
        reveal(Seq::filter);
        assert(all.take(0).filter(keep) =~= Seq::<Tree>::empty());
        assert(trees(list@) =~= before + all.take(0).filter(keep));
    }
    while k < 6
        invariant
            k <= 6,
            all == internal_headers(),
            keep == (|header: Tree| !before.contains(header)),
            trees(list@) == before + all.take(k as int).filter(keep),
        decreases 6 - k,
    {
        let header = GM_INTERNAL_HEADERS[k].to_owned();
        let ghost x = all[k as int];
        let ghost now = trees(list@);
        let ghost added = all.take(k as int).filter(keep);
        proof {
            filter_step(all, keep, k as int);
            filter_keeps_only(all.take(k as int), keep, x);
            if all.take(k as int).contains(x) {
                let j = choose|j: int| 0 <= j < k && all.take(k as int)[j] == x;
                internal_headers_are_distinct(j, k as int);
            }
            now.index_of_first_ensures(x);
            if before.contains(x) {
                let j = choose|j: int| 0 <= j < before.len() && before[j] == x;
                assert(now[j] == x);
            } else if now.contains(x) {
                let j = choose|j: int| 0 <= j < now.len() && now[j] == x;
                if j < before.len() {
                    assert(before[j] == x);
                } else {
                    assert(added[j - before.len()] == x);
                }
            }
        }
        if position(list, &header).is_none() {
            list.push(Node::Text(header));
            assert(list@.last()@ == x);
            assert(trees(list@) =~= now.push(x));
            assert(now.push(x) =~= before + added.push(x));
        }
        k += 1;
    }
    assert(all.take(6) =~= all);
}

/// Which entry has the key `key`.
fn find_entry(entries: &Vec<(Node, Node)>, key: &String) -> (r: Option<usize>)
    ensures
        match r {
            Some(at) => at < entries@.len() && entry_index(entry_trees(entries@), key@) == Some(
                at as int,
            ),
            None => entry_index(entry_trees(entries@), key@) is None,
        },
{
    let ghost all = keys(entry_trees(entries@));
    let ghost needle = Tree::Text(key@);
    proof {
        all.index_of_first_ensures(needle);
    }
    let mut i: usize = 0;
    while i < entries.len()
        invariant
            i <= entries@.len(),
            all == keys(entry_trees(entries@)),
            needle == Tree::Text(key@),
            forall|j: int| 0 <= j < i ==> all[j] != needle,
        decreases entries@.len() - i,
    {
        if is_text(&entries[i].0, key) {
            proof {
                all.index_of_first_ensures(needle);
                assert(all[i as int] == needle);
                assert(all.contains(needle));
            }
            return Some(i);
        }
        i += 1;
    }
    proof {
        all.index_of_first_ensures(needle);
    }
    None
}

/// Adds the internal headers to what a route removes.
///
/// # Errors
/// Returns [`RenderError::RouteNotMapping`] where the route is not a mapping, which
/// is then unchanged, and [`RenderError::HeadersNotList`] where what it removes is not
/// a list, which then is no longer in the route.
pub fn add_internal_header_strip(route: &mut Node, provider: &str) -> (r: Result<(), RenderError>)
    ensures
        match (r, stripped(old(route)@, provider@)) {
            (Ok(_), Ok(tree)) => final(route)@ == tree,
            (Err(e), Err(failure)) => {
                &&& e@ == failure
                &&& final(route)@ == match old(route)@ {
                    Tree::Mapping(entries) => Tree::Mapping(
                        without_entry(entries, entry_index(entries, HEADERS_KEY@)->0),
                    ),
                    tree => tree,
                }
            },
            _ => false,
        },
{
    proof {
        tree_of_parts(*route);
    }
    match route {
        Node::Mapping(entries) => {
            let ghost all = entry_trees(entries@);
            let key = HEADERS_KEY.to_owned();
            let mut list: Vec<Node> = Vec::new();
            if let Some(at) = find_entry(entries, &key) {
                proof {
                    tree_of_parts(entries@[at as int].1);
                }
                let (_, old_list) = entries.swap_remove(at);
                assert(entry_trees(entries@) =~= without_entry(all, at as int));
                match old_list {
                    Node::Sequence(items) => {
                        list = items;
                    },
                    _ => {
                        proof {
                            tree_of_parts(Node::Mapping(*entries));
                        }
                        return Err(RenderError::HeadersNotList { provider: provider.to_owned() });
                    },
                }
            } else {
                assert(trees(list@) =~= Seq::<Tree>::empty());
            }
            let ghost kept = entry_trees(entries@);
            add_internal(&mut list);
            let list = Node::Sequence(list);
            proof {
                tree_of_parts(list);
            }
            entries.push((Node::Text(key), list));
            proof {
                tree_of_parts(Node::Mapping(*entries));
                assert(entry_trees(entries@) =~= kept.push((Tree::Text(HEADERS_KEY@), list@)));
            }
            Ok(())
        },
        _ => Err(RenderError::RouteNotMapping { provider: provider.to_owned() }),
    }
}

/// What a route removes: the strings under its list of headers to remove.
pub open spec fn removed_headers(route: Tree) -> Seq<Tree> {
    match route {
        Tree::Mapping(entries) => match entry_index(entries, HEADERS_KEY@) {
            Some(at) => match entries[at].1 {
                Tree::Sequence(list) => list,
                _ => Seq::empty(),
            },
            None => Seq::empty(),
        },
        _ => Seq::empty(),
    }
}

/// The completed list starts with the list as it was, holds every internal
/// header, and holds nothing else.
pub proof fn completed_list(list: Seq<Tree>, x: Tree)
    ensures
        list.is_prefix_of(with_internal(list)),
        with_internal(list).contains(x) <==> list.contains(x) || internal_headers().contains(x),
{
    let keep = |header: Tree| !list.contains(header);
    let added = internal_headers().filter(keep);
    let all = with_internal(list);
    filter_keeps_only(internal_headers(), keep, x);
    assert(list =~= all.take(list.len() as int));
    if all.contains(x) {
        let i = choose|i: int| 0 <= i < all.len() && all[i] == x;
        if i < list.len() {
            assert(list[i] == x);
        } else {
            assert(added[i - list.len()] == x);
        }
    }
    if list.contains(x) {
        let i = choose|i: int| 0 <= i < list.len() && list[i] == x;
        assert(all[i] == x);
    } else if internal_headers().contains(x) {
        let i = choose|i: int| 0 <= i < added.len() && added[i] == x;
        assert(all[list.len() + i] == x);
    }
}

/// Completing a list a second time adds nothing.
pub proof fn completing_twice_adds_nothing(list: Seq<Tree>)
    ensures
        with_internal(with_internal(list)) == with_internal(list),
{
    let full = with_internal(list);
    let keep = |header: Tree| !full.contains(header);
    let added = internal_headers().filter(keep);
    if added.len() > 0 {
        let x = added[0];
        assert(added.contains(x));
        filter_keeps_only(internal_headers(), keep, x);
        completed_list(list, x);
    }
    assert(with_internal(full) =~= full);
}

/// In a route with distinct keys, the entry that [`with_list`] puts last is the one
/// with the list of headers.
proof fn list_is_last_entry(entries: Seq<(Tree, Tree)>, list: Seq<Tree>)
    requires
        !keys(entries).contains(Tree::Text(HEADERS_KEY@)),
    ensures
        entry_index(with_list(entries, list)->Mapping_0, HEADERS_KEY@) == Some(
            entries.len() as int,
        ),
        removed_headers(with_list(entries, list)) == with_internal(list),
{
    let all = with_list(entries, list)->Mapping_0;
    let needle = Tree::Text(HEADERS_KEY@);
    let ks = keys(all);
    ks.index_of_first_ensures(needle);
    assert(ks[entries.len() as int] == needle);
    assert(ks.contains(needle));
    let at = ks.index_of_first(needle)->0;
    if at < entries.len() {
        assert(keys(entries)[at] == needle);
        assert(keys(entries).contains(needle));
    }
}

/// Without its entry, the key is not in the mapping.
proof fn key_is_gone(entries: Seq<(Tree, Tree)>)
    requires
        keys_distinct(entries),
    ensures
        match entry_index(entries, HEADERS_KEY@) {
            Some(at) => 0 <= at < entries.len() && !keys(without_entry(entries, at)).contains(
                Tree::Text(HEADERS_KEY@),
            ),
            None => !keys(entries).contains(Tree::Text(HEADERS_KEY@)),
        },
{
    let needle = Tree::Text(HEADERS_KEY@);
    keys(entries).index_of_first_ensures(needle);
    if let Some(at) = entry_index(entries, HEADERS_KEY@) {
        let rest = without_entry(entries, at);
        if keys(rest).contains(needle) {
            let i = choose|i: int| 0 <= i < rest.len() && keys(rest)[i] == needle;
            assert(rest[i] == if i == at { entries.last() } else { entries[i] });
            let j = if i == at { entries.len() - 1 } else { i };
            assert(entries[j].0 == needle && entries[at].0 == needle && j != at);
            assert(clash(entries[j].0, entries[at].0));
        }
    }
}

/// Every upstream route removes every internal header, after what it removed
/// before, and removes nothing else.
pub proof fn route_removes_internal_headers(route: Tree, provider: Seq<char>, x: Tree)
    requires
        well_keyed(route),
        stripped(route, provider) is Ok,
    ensures
        ({
            let before = removed_headers(route);
            let now = removed_headers(stripped(route, provider)->Ok_0);
            &&& before.is_prefix_of(now)
            &&& now.contains(x) <==> before.contains(x) || internal_headers().contains(x)
        }),
{
    let entries = route->Mapping_0;
    key_is_gone(entries);
    completed_list(removed_headers(route), x);
    match entry_index(entries, HEADERS_KEY@) {
        Some(at) => {
            list_is_last_entry(without_entry(entries, at), removed_headers(route));
        },
        None => {
            list_is_last_entry(entries, Seq::empty());
        },
    }
}

/// The other entries of a route are kept: an entry with another key is in the
/// route afterwards exactly when it was in it before.
pub proof fn route_keeps_other_entries(route: Tree, provider: Seq<char>, entry: (Tree, Tree))
    requires
        stripped(route, provider) is Ok,
        entry.0 != Tree::Text(HEADERS_KEY@),
    ensures
        stripped(route, provider)->Ok_0->Mapping_0.contains(entry) <==> route->Mapping_0.contains(
            entry,
        ),
{
    let entries = route->Mapping_0;
    let now = stripped(route, provider)->Ok_0->Mapping_0;
    let needle = Tree::Text(HEADERS_KEY@);
    keys(entries).index_of_first_ensures(needle);
    let rest = match entry_index(entries, HEADERS_KEY@) {
        Some(at) => without_entry(entries, at),
        None => entries,
    };
    if now.contains(entry) {
        let i = choose|i: int| 0 <= i < now.len() && now[i] == entry;
        assert(now[i] == rest[i]);
        match entry_index(entries, HEADERS_KEY@) {
            Some(at) => {
                assert(rest[i] == if i == at { entries.last() } else { entries[i] });
                assert(entries[if i == at { entries.len() - 1 } else { i }] == entry);
            },
            None => {},
        }
    }
    if entries.contains(entry) {
        let i = choose|i: int| 0 <= i < entries.len() && entries[i] == entry;
        match entry_index(entries, HEADERS_KEY@) {
            Some(at) => {
                assert(keys(entries)[at] == needle);
                assert(i != at);
                if i == entries.len() - 1 {
                    assert(now[at] == entry);
                } else {
                    assert(now[i] == entry);
                }
            },
            None => {
                assert(now[i] == entry);
            },
        }
    }
}

/// Doing it again changes nothing.
pub proof fn stripping_twice_changes_nothing(route: Tree, provider: Seq<char>)
    requires
        well_keyed(route),
        stripped(route, provider) is Ok,
    ensures
        stripped(stripped(route, provider)->Ok_0, provider) == stripped(route, provider),
{
    let entries = route->Mapping_0;
    key_is_gone(entries);
    let (rest, list) = match entry_index(entries, HEADERS_KEY@) {
        Some(at) => (without_entry(entries, at), removed_headers(route)),
        None => (entries, Seq::empty()),
    };
    list_is_last_entry(rest, list);
    let now = with_list(rest, list)->Mapping_0;
    assert(without_entry(now, rest.len() as int) =~= rest);
    completing_twice_adds_nothing(list);
}

/// A route with distinct keys keeps them distinct.
pub proof fn strip_keeps_keys_distinct(route: Tree, provider: Seq<char>)
    requires
        well_keyed(route),
        stripped(route, provider) is Ok,
    ensures
        well_keyed(stripped(route, provider)->Ok_0),
{
    let entries = route->Mapping_0;
    let needle = Tree::Text(HEADERS_KEY@);
    key_is_gone(entries);
    keys(entries).index_of_first_ensures(needle);
    let (rest, list) = match entry_index(entries, HEADERS_KEY@) {
        Some(at) => (without_entry(entries, at), removed_headers(route)),
        None => (entries, Seq::empty()),
    };
    let now = with_list(rest, list)->Mapping_0;
    let full = with_internal(list);
    assert forall|i: int| 0 <= i < full.len() implies well_keyed(#[trigger] full[i]) by {
        assert(full.contains(full[i]));
        completed_list(list, full[i]);
        if list.contains(full[i]) {
            let at = entry_index(entries, HEADERS_KEY@)->0;
            assert(well_keyed(entries[at].1));
        }
    }
    assert forall|i: int| 0 <= i < rest.len() implies entries.contains(#[trigger] rest[i]) by {
        match entry_index(entries, HEADERS_KEY@) {
            Some(at) => {
                assert(rest[i] == entries[if i == at { entries.len() - 1 } else { i }]);
            },
            None => {},
        }
    }
    assert forall|i: int| 0 <= i < now.len() implies well_keyed((#[trigger] now[i]).0)
        && well_keyed(now[i].1) by {
        if i < rest.len() {
            assert(now[i] == rest[i]);
        } else {
            assert(well_keyed(Tree::Sequence(full)));
        }
    }
    assert forall|i: int, j: int|
        0 <= i < now.len() && 0 <= j < now.len() && i != j implies !clash(
        #[trigger] now[i].0,
        #[trigger] now[j].0,
    ) by {
        if i == rest.len() || j == rest.len() {
            let k = if i < j { i } else { j };
            assert(keys(rest)[k] == now[k].0);
            assert(keys(rest).contains(keys(rest)[k]));
        } else {
            match entry_index(entries, HEADERS_KEY@) {
                Some(at) => {
                    let n = entries.len() - 1;
                    let x = if i == at { n } else { i };
                    let y = if j == at { n } else { j };
                    assert(now[i] == entries[x] && now[j] == entries[y]);
                    assert(!clash(entries[x].0, entries[y].0));
                },
                None => {
                    assert(!clash(entries[i].0, entries[j].0));
                },
            }
        }
    }
}

/// The internal headers, and the key of the list of headers to remove.
pub proof fn internal_header_names()
    ensures
        internal_headers() == seq![
            Tree::Text("x-gm-request-id"@),
            Tree::Text("x-gm-gateway-sig"@),
            Tree::Text("x-gm-product"@),
            Tree::Text("x-gm-node-key"@),
            Tree::Text("x-gm-provider"@),
            Tree::Text("x-gm-upstream-slot"@),
        ],
        HEADERS_KEY@ == "request_headers_to_remove"@,
{
    assert(internal_headers() =~= seq![
        Tree::Text("x-gm-request-id"@),
        Tree::Text("x-gm-gateway-sig"@),
        Tree::Text("x-gm-product"@),
        Tree::Text("x-gm-node-key"@),
        Tree::Text("x-gm-provider"@),
        Tree::Text("x-gm-upstream-slot"@),
    ]);
}

/// What a list of headers to remove becomes: the list, and behind it, in their order,
/// those internal headers that it does not hold.
pub proof fn lacking_headers_are_added(list: Seq<Tree>)
    ensures
        with_internal(list) == list + seq![
            Tree::Text("x-gm-request-id"@),
            Tree::Text("x-gm-gateway-sig"@),
            Tree::Text("x-gm-product"@),
            Tree::Text("x-gm-node-key"@),
            Tree::Text("x-gm-provider"@),
            Tree::Text("x-gm-upstream-slot"@),
        ].filter(|header: Tree| !list.contains(header)),
{
    internal_header_names();
}

/// A route without the key gets, behind its entries, one with all internal headers.
pub proof fn route_without_a_list_gets_one(entries: Seq<(Tree, Tree)>, provider: Seq<char>)
    requires
        forall|i: int|
            0 <= i < entries.len() ==> (#[trigger] entries[i]).0 != Tree::Text(
                "request_headers_to_remove"@,
            ),
    ensures
        stripped(Tree::Mapping(entries), provider) == Ok::<Tree, Failure>(
            Tree::Mapping(
                entries.push(
                    (
                        Tree::Text("request_headers_to_remove"@),
                        Tree::Sequence(
                            seq![
                                Tree::Text("x-gm-request-id"@),
                                Tree::Text("x-gm-gateway-sig"@),
                                Tree::Text("x-gm-product"@),
                                Tree::Text("x-gm-node-key"@),
                                Tree::Text("x-gm-provider"@),
                                Tree::Text("x-gm-upstream-slot"@),
                            ],
                        ),
                    ),
                ),
            ),
        ),
{
    let needle = Tree::Text(HEADERS_KEY@);
    keys(entries).index_of_first_ensures(needle);
    if keys(entries).contains(needle) {
        let i = choose|i: int| 0 <= i < keys(entries).len() && keys(entries)[i] == needle;
        assert(entries[i].0 == needle);
    }
    internal_header_names();
    let all = internal_headers();
    let keep = |header: Tree| !Seq::<Tree>::empty().contains(header);
    all_are_kept(all, keep);
    assert(with_internal(Seq::empty()) =~= all);
}

proof fn all_are_kept(s: Seq<Tree>, keep: spec_fn(Tree) -> bool)
    requires
        forall|i: int| 0 <= i < s.len() ==> keep(#[trigger] s[i]),
    ensures
        s.filter(keep) == s,
    decreases s.len(),
{
    reveal(Seq::filter);
    if s.len() > 0 {
        all_are_kept(s.drop_last(), keep);
        assert(s[s.len() - 1] == s.last());
        assert(s.drop_last().push(s.last()) =~= s);
    }
}

/// In a route with the key, the entry of the list gives its place to the last entry,
/// and stands last, with the lacking internal headers behind what it held.
pub proof fn route_with_a_list_gets_it_completed(
    before: Seq<(Tree, Tree)>,
    list: Seq<Tree>,
    behind: Seq<(Tree, Tree)>,
    provider: Seq<char>,
)
    requires
        forall|i: int|
            0 <= i < before.len() ==> (#[trigger] before[i]).0 != Tree::Text(
                "request_headers_to_remove"@,
            ),
    ensures
        ({
            let own = (Tree::Text("request_headers_to_remove"@), Tree::Sequence(list));
            let full = list + seq![
                Tree::Text("x-gm-request-id"@),
                Tree::Text("x-gm-gateway-sig"@),
                Tree::Text("x-gm-product"@),
                Tree::Text("x-gm-node-key"@),
                Tree::Text("x-gm-provider"@),
                Tree::Text("x-gm-upstream-slot"@),
            ].filter(|header: Tree| !list.contains(header));
            let others = if behind.len() == 0 {
                before
            } else {
                before + seq![behind.last()] + behind.drop_last()
            };
            stripped(Tree::Mapping(before + seq![own] + behind), provider) == Ok::<Tree, Failure>(
                Tree::Mapping(
                    others + seq![(Tree::Text("request_headers_to_remove"@), Tree::Sequence(full))],
                ),
            )
        }),
{
    let own = (Tree::Text(HEADERS_KEY@), Tree::Sequence(list));
    let entries = before + seq![own] + behind;
    let at = before.len() as int;
    first_entry_with_the_key(before, own, behind);
    lacking_headers_are_added(list);
    let others = if behind.len() == 0 {
        before
    } else {
        before + seq![behind.last()] + behind.drop_last()
    };
    assert(entries[at] == own);
    assert(without_entry(entries, at) =~= others);
    let last = (Tree::Text(HEADERS_KEY@), Tree::Sequence(with_internal(list)));
    assert(others.push(last) =~= others + seq![last]);
}

proof fn first_entry_with_the_key(
    before: Seq<(Tree, Tree)>,
    own: (Tree, Tree),
    behind: Seq<(Tree, Tree)>,
)
    requires
        own.0 == Tree::Text(HEADERS_KEY@),
        forall|i: int| 0 <= i < before.len() ==> (#[trigger] before[i]).0 != Tree::Text(HEADERS_KEY@),
    ensures
        entry_index(before + seq![own] + behind, HEADERS_KEY@) == Some(before.len() as int),
{
    let entries = before + seq![own] + behind;
    let needle = Tree::Text(HEADERS_KEY@);
    let ks = keys(entries);
    ks.index_of_first_ensures(needle);
    assert(ks[before.len() as int] == needle);
    assert(ks.contains(needle));
    let at = ks.index_of_first(needle)->0;
    if at < before.len() {
        assert(entries[at] == before[at]);
    }
}

/// Which routes are refused: what is not a mapping, and one whose headers to remove
/// are not a list.
pub proof fn refused_routes(
    route: Tree,
    before: Seq<(Tree, Tree)>,
    value: Tree,
    behind: Seq<(Tree, Tree)>,
    provider: Seq<char>,
)
    requires
        forall|i: int|
            0 <= i < before.len() ==> (#[trigger] before[i]).0 != Tree::Text(
                "request_headers_to_remove"@,
            ),
        !(value is Sequence),
    ensures
        !(route is Mapping) ==> stripped(route, provider) == Err::<Tree, Failure>(
            Failure::RouteNotMapping { provider },
        ),
        stripped(
            Tree::Mapping(
                before + seq![(Tree::Text("request_headers_to_remove"@), value)] + behind,
            ),
            provider,
        ) == Err::<Tree, Failure>(Failure::HeadersNotList { provider }),
{
    let own = (Tree::Text(HEADERS_KEY@), value);
    first_entry_with_the_key(before, own, behind);
    assert((before + seq![own] + behind)[before.len() as int] == own);
}

/// What a route removes is what stands in the list under its first entry with the key.
pub proof fn removed_headers_are_listed(
    before: Seq<(Tree, Tree)>,
    list: Seq<Tree>,
    behind: Seq<(Tree, Tree)>,
)
    requires
        forall|i: int|
            0 <= i < before.len() ==> (#[trigger] before[i]).0 != Tree::Text(
                "request_headers_to_remove"@,
            ),
    ensures
        removed_headers(
            Tree::Mapping(
                before + seq![(Tree::Text("request_headers_to_remove"@), Tree::Sequence(list))]
                    + behind,
            ),
        ) == list,
        removed_headers(Tree::Mapping(before)).len() == 0,
{
    let own = (Tree::Text(HEADERS_KEY@), Tree::Sequence(list));
    first_entry_with_the_key(before, own, behind);
    assert((before + seq![own] + behind)[before.len() as int] == own);
    let needle = Tree::Text(HEADERS_KEY@);
    keys(before).index_of_first_ensures(needle);
    if keys(before).contains(needle) {
        let i = choose|i: int| 0 <= i < keys(before).len() && keys(before)[i] == needle;
        assert(before[i].0 == needle);
    }
}

/// A route whose headers are not a list loses their entry, whose place the last takes.
pub proof fn entry_gives_its_place_to_the_last(
    before: Seq<(Tree, Tree)>,
    own: (Tree, Tree),
    behind: Seq<(Tree, Tree)>,
)
    requires
        own.0 == Tree::Text("request_headers_to_remove"@),
        forall|i: int|
            0 <= i < before.len() ==> (#[trigger] before[i]).0 != Tree::Text(
                "request_headers_to_remove"@,
            ),
    ensures
        ({
            let entries = before + seq![own] + behind;
            without_entry(entries, entry_index(entries, HEADERS_KEY@)->0) == if behind.len() == 0 {
                before
            } else {
                before + seq![behind.last()] + behind.drop_last()
            }
        }),
{
    first_entry_with_the_key(before, own, behind);
    let entries = before + seq![own] + behind;
    assert(without_entry(entries, before.len() as int) =~= if behind.len() == 0 {
        before
    } else {
        before + seq![behind.last()] + behind.drop_last()
    });
}

} // verus!
