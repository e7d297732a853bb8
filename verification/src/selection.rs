//! Which variant of a provider's files is used.

use vstd::prelude::*;
use vstd::utf8::*;

use crate::error::{Failure, RenderError};
use crate::text::{bytes_before, holds_text, text_before, text_before_is_strict_total, text_less, texts};

verus! {

/// Providers and variants, pair by pair.
pub open spec fn pairs(list: Seq<(String, String)>) -> Seq<(Seq<char>, Seq<char>)> {
    Seq::new(list.len(), |i: int| (list[i].0@, list[i].1@))
}

/// The variant that is selected for `provider`: that of its last pair.
pub open spec fn chosen(selections: Seq<(Seq<char>, Seq<char>)>, provider: Seq<char>) -> Option<
    Seq<char>,
>
    decreases selections.len(),
{
    if selections.len() == 0 {
        None
    } else if selections.last().0 == provider {
        Some(selections.last().1)
    } else {
        chosen(selections.drop_last(), provider)
    }
}

/// A provider with a selection, and no file that answers it.
pub open spec fn unanswered(
    selections: Seq<(Seq<char>, Seq<char>)>,
    selected: Seq<Seq<char>>,
) -> spec_fn(Seq<char>) -> bool {
    |provider: Seq<char>| chosen(selections, provider) is Some && !selected.contains(provider)
}

/// A provider with variant files, and no selection.
pub open spec fn undecided(
    selections: Seq<(Seq<char>, Seq<char>)>,
    variant_providers: Seq<Seq<char>>,
) -> spec_fn(Seq<char>) -> bool {
    |provider: Seq<char>|
        variant_providers.contains(provider) && chosen(selections, provider) is None
}

/// `text` is the first in order of those that `p` holds of.
pub open spec fn is_first(p: spec_fn(Seq<char>) -> bool, text: Seq<char>) -> bool {
    p(text) && forall|other: Seq<char>|
        #[trigger] p(other) && other != text ==> text_before(text, other)
}

/// The first in order of the texts that `p` holds of.
pub open spec fn first_of(p: spec_fn(Seq<char>) -> bool) -> Seq<char> {
    choose|text: Seq<char>| is_first(p, text)
}

/// What [`check_selections`] finds: the first provider whose selection no file
/// answers; else the first one with variant files and no selection.
pub open spec fn checked(
    selections: Seq<(Seq<char>, Seq<char>)>,
    variant_providers: Seq<Seq<char>>,
    selected: Seq<Seq<char>>,
) -> Result<(), Failure> {
    let lost = unanswered(selections, selected);
    let open = undecided(selections, variant_providers);
    if exists|provider: Seq<char>| #[trigger] lost(provider) {
        Err(
            Failure::NoSuchVariant {
                provider: first_of(lost),
                variant: chosen(selections, first_of(lost))->0,
            },
        )
    } else if exists|provider: Seq<char>| #[trigger] open(provider) {
        Err(Failure::NotSelected { provider: first_of(open) })
    } else {
        Ok(())
    }
}

/// The view of a check.
pub open spec fn check_view(r: Result<(), RenderError>) -> Result<(), Failure> {
    match r {
        Ok(_) => Ok(()),
        Err(e) => Err(e@),
    }
}

proof fn first_is_unique(p: spec_fn(Seq<char>) -> bool, text: Seq<char>)
    requires
        is_first(p, text),
    ensures
        first_of(p) == text,
{
    let found = first_of(p);
    assert(is_first(p, found));
    if found != text {
        text_before_is_strict_total(found, text, found);
    }
}

pub(crate) proof fn chosen_is_listed(selections: Seq<(Seq<char>, Seq<char>)>, provider: Seq<char>)
    ensures
        chosen(selections, provider) is Some <==> exists|i: int|
            0 <= i < selections.len() && (#[trigger] selections[i]).0 == provider,
    decreases selections.len(),
{
    if selections.len() > 0 {
        let init = selections.drop_last();
        chosen_is_listed(init, provider);
        if selections.last().0 == provider {
            assert(selections[selections.len() - 1].0 == provider);
        } else {
            if chosen(init, provider) is Some {
                let i = choose|i: int| 0 <= i < init.len() && (#[trigger] init[i]).0 == provider;
                assert(selections[i].0 == provider);
            }
            if exists|i: int| 0 <= i < selections.len() && (#[trigger] selections[i]).0 == provider {
                let i = choose|i: int|
                    0 <= i < selections.len() && (#[trigger] selections[i]).0 == provider;
                assert(init[i].0 == provider);
            }
        }
    }
}

/// The variant that is selected for `provider`.
pub(crate) fn selected_variant<'a>(
    selections: &'a Vec<(String, String)>,
    provider: &String,
) -> (r: Option<&'a String>)
    ensures
        match r {
            Some(variant) => chosen(pairs(selections@), provider@) == Some(variant@),
            None => chosen(pairs(selections@), provider@) is None,
        },
{
    let ghost all = pairs(selections@);
    let mut n: usize = selections.len();
    assert(all.take(n as int) =~= all);
    while n > 0
        invariant
            n <= selections@.len(),
            all == pairs(selections@),
            chosen(all, provider@) == chosen(all.take(n as int), provider@),
        decreases n,
    {
        assert(all.take(n as int).drop_last() =~= all.take(n - 1));
        assert(all.take(n as int).last() == all[n - 1]);
        if selections[n - 1].0 == *provider {
            return Some(&selections[n - 1].1);
        }
        n -= 1;
    }
    None
}

/// Checks that each selection found its file, and that each provider with
/// variant files has a selection.
///
/// # Errors
/// Returns [`RenderError::NoSuchVariant`] for the first provider whose selection
/// matched no file, else [`RenderError::NotSelected`] for the first one that ships
/// variant files and has no selection.
pub fn check_selections(
    selections: &Vec<(String, String)>,
    variant_providers: &Vec<String>,
    selected: &Vec<String>,
) -> (r: Result<(), RenderError>)
    ensures
        check_view(r) == checked(
            pairs(selections@),
            texts(variant_providers@),
            texts(selected@),
        ),
{
    let ghost all = pairs(selections@);
    let ghost lost = unanswered(all, texts(selected@));
    let ghost open = undecided(all, texts(variant_providers@));
    let mut first: Option<usize> = None;
    let mut i: usize = 0;
    while i < selections.len()
        invariant
            i <= selections@.len(),
            all == pairs(selections@),
            lost == unanswered(all, texts(selected@)),
            match first {
                Some(b) => {
                    &&& b < selections@.len()
                    &&& lost(all[b as int].0)
                    &&& forall|j: int|
                        0 <= j < i && lost((#[trigger] all[j]).0) && all[j].0 != all[b as int].0
                            ==> text_before(all[b as int].0, all[j].0)
                },
                None => forall|j: int| 0 <= j < i ==> !lost((#[trigger] all[j]).0),
            },
        decreases selections@.len() - i,
    {
        let provider = &selections[i].0;
        proof {
            assert(all[i as int].0 == provider@);
            chosen_is_listed(all, provider@);
        }
        if !holds_text(selected, provider) {
            let better = match first {
                Some(b) => text_less(provider, &selections[b].0),
                None => true,
            };
            proof {
                if let Some(b) = first {
                    let old_first = all[b as int].0;
                    text_before_is_strict_total(provider@, old_first, old_first);
                    assert forall|j: int|
                        0 <= j < i && lost((#[trigger] all[j]).0) && better implies text_before(
                        provider@,
                        all[j].0,
                    ) by {
                        text_before_is_strict_total(provider@, old_first, all[j].0);
                    }
                }
            }
            if better {
                first = Some(i);
            }
        }
        i += 1;
    }
    if let Some(b) = first {
        let (provider, variant) = (&selections[b].0, selected_variant(selections, &selections[b].0));
        proof {
            assert forall|other: Seq<char>| #[trigger] lost(other) && other != provider@ implies
                text_before(provider@, other) by {
                chosen_is_listed(all, other);
                let j = choose|j: int| 0 <= j < all.len() && (#[trigger] all[j]).0 == other;
                assert(lost(all[j].0));
            }
            first_is_unique(lost, provider@);
        }
        if let Some(variant) = variant {
            return Err(
                RenderError::NoSuchVariant { provider: provider.clone(), variant: variant.clone() },
            );
        }
    }
    proof {
        assert forall|other: Seq<char>| !#[trigger] lost(other) by {
            if lost(other) {
                chosen_is_listed(all, other);
                let j = choose|j: int| 0 <= j < all.len() && (#[trigger] all[j]).0 == other;
                assert(!lost(all[j].0));
            }
        }
    }
    let ghost names = texts(variant_providers@);
    let mut first: Option<usize> = None;
    let mut i: usize = 0;
    while i < variant_providers.len()
        invariant
            i <= variant_providers@.len(),
            all == pairs(selections@),
            names == texts(variant_providers@),
            open == undecided(all, names),
            match first {
                Some(b) => {
                    &&& b < variant_providers@.len()
                    &&& open(names[b as int])
                    &&& forall|j: int|
                        0 <= j < i && open(#[trigger] names[j]) && names[j] != names[b as int]
                            ==> text_before(names[b as int], names[j])
                },
                None => forall|j: int| 0 <= j < i ==> !open(#[trigger] names[j]),
            },
        decreases variant_providers@.len() - i,
    {
        let provider = &variant_providers[i];
        assert(names[i as int] == provider@);
        if selected_variant(selections, provider).is_none() {
            let better = match first {
                Some(b) => text_less(provider, &variant_providers[b]),
                None => true,
            };
            proof {
                assert(names.contains(names[i as int]));
                if let Some(b) = first {
                    let old_first = names[b as int];
                    text_before_is_strict_total(provider@, old_first, old_first);
                    assert forall|j: int|
                        0 <= j < i && open(#[trigger] names[j]) && better implies text_before(
                        provider@,
                        names[j],
                    ) by {
                        text_before_is_strict_total(provider@, old_first, names[j]);
                    }
                }
            }
            if better {
                first = Some(i);
            }
        }
        i += 1;
    }
    match first {
        Some(b) => {
            let provider = &variant_providers[b];
            proof {
                assert forall|other: Seq<char>| #[trigger] open(other) && other != provider@ implies
                    text_before(provider@, other) by {
                    let j = choose|j: int| 0 <= j < names.len() && names[j] == other;
                    assert(open(names[j]));
                }
                first_is_unique(open, provider@);
            }
            Err(RenderError::NotSelected { provider: provider.clone() })
        },
        None => {
            proof {
                assert forall|other: Seq<char>| !#[trigger] open(other) by {
                    if open(other) {
                        let j = choose|j: int| 0 <= j < names.len() && names[j] == other;
                        assert(!open(names[j]));
                    }
                }
            }
            Ok(())
        },
    }
}

/// Of the texts in a list that `p` holds of, one is the first.
proof fn first_exists(list: Seq<Seq<char>>, p: spec_fn(Seq<char>) -> bool) -> (first: Seq<char>)
    requires
        exists|x: Seq<char>| list.contains(x) && #[trigger] p(x),
    ensures
        list.contains(first),
        p(first),
        forall|x: Seq<char>|
            list.contains(x) && #[trigger] p(x) && x != first ==> text_before(first, x),
    decreases list.len(),
{
    let (init, last) = (list.drop_last(), list.last());
    assert forall|x: Seq<char>| list.contains(x) implies init.contains(x) || x == last by {
        let i = choose|i: int| 0 <= i < list.len() && list[i] == x;
        if i < init.len() {
            assert(init[i] == x);
        }
    }
    assert forall|x: Seq<char>| init.contains(x) implies list.contains(x) by {
        let i = choose|i: int| 0 <= i < init.len() && init[i] == x;
        assert(list[i] == x);
    }
    assert(list.contains(last)) by {
        assert(list[list.len() - 1] == last);
    }
    if exists|x: Seq<char>| init.contains(x) && #[trigger] p(x) {
        let best = first_exists(init, p);
        text_before_is_strict_total(best, last, last);
        if p(last) && text_before(last, best) {
            assert forall|x: Seq<char>| list.contains(x) && #[trigger] p(x) && x != last implies
                text_before(last, x) by {
                text_before_is_strict_total(last, best, x);
            }
            last
        } else {
            best
        }
    } else {
        last
    }
}

/// The check passes exactly when each selection was answered by a file and each
/// provider with variant files has a selection.
pub proof fn check_passes_when_complete(
    selections: Seq<(Seq<char>, Seq<char>)>,
    variant_providers: Seq<Seq<char>>,
    selected: Seq<Seq<char>>,
)
    ensures
        checked(selections, variant_providers, selected) is Ok <==> {
            &&& forall|i: int|
                0 <= i < selections.len() ==> selected.contains((#[trigger] selections[i]).0)
            &&& forall|i: int|
                0 <= i < variant_providers.len() ==> chosen(
                    selections,
                    #[trigger] variant_providers[i],
                ) is Some
        },
{
    let lost = unanswered(selections, selected);
    let open = undecided(selections, variant_providers);
    assert forall|i: int| 0 <= i < selections.len() implies chosen(
        selections,
        (#[trigger] selections[i]).0,
    ) is Some by {
        chosen_is_listed(selections, selections[i].0);
    }
    if exists|p: Seq<char>| #[trigger] lost(p) {
        let p = choose|p: Seq<char>| #[trigger] lost(p);
        chosen_is_listed(selections, p);
        let i = choose|i: int| 0 <= i < selections.len() && (#[trigger] selections[i]).0 == p;
        assert(!selected.contains(selections[i].0));
    } else {
        assert forall|i: int| 0 <= i < selections.len() implies selected.contains(
            (#[trigger] selections[i]).0,
        ) by {
            assert(!lost(selections[i].0));
        }
        if exists|p: Seq<char>| #[trigger] open(p) {
            let p = choose|p: Seq<char>| #[trigger] open(p);
            let i = choose|i: int| 0 <= i < variant_providers.len() && variant_providers[i] == p;
            assert(chosen(selections, variant_providers[i]) is None);
        } else {
            assert forall|i: int| 0 <= i < variant_providers.len() implies chosen(
                selections,
                #[trigger] variant_providers[i],
            ) is Some by {
                assert(variant_providers.contains(variant_providers[i]));
                assert(!open(variant_providers[i]));
            }
        }
    }
}

/// A failed check names the first provider, in order, that it fails for.
pub proof fn failed_check_names_the_first(
    selections: Seq<(Seq<char>, Seq<char>)>,
    variant_providers: Seq<Seq<char>>,
    selected: Seq<Seq<char>>,
)
    ensures
        match checked(selections, variant_providers, selected) {
            Ok(_) => true,
            Err(Failure::NoSuchVariant { provider, variant }) => {
                &&& is_first(unanswered(selections, selected), provider)
                &&& chosen(selections, provider) == Some(variant)
            },
            Err(Failure::NotSelected { provider }) => is_first(
                undecided(selections, variant_providers),
                provider,
            ),
            Err(_) => false,
        },
{
    let lost = unanswered(selections, selected);
    let open = undecided(selections, variant_providers);
    if exists|p: Seq<char>| #[trigger] lost(p) {
        let listed = Seq::new(selections.len(), |i: int| selections[i].0);
        assert forall|p: Seq<char>| #[trigger] lost(p) implies listed.contains(p) by {
            chosen_is_listed(selections, p);
            let i = choose|i: int| 0 <= i < selections.len() && (#[trigger] selections[i]).0 == p;
            assert(listed[i] == p);
        }
        let first = first_exists(listed, lost);
        assert(is_first(lost, first));
        first_is_unique(lost, first);
    } else if exists|p: Seq<char>| #[trigger] open(p) {
        let first = first_exists(variant_providers, open);
        assert(is_first(open, first));
        first_is_unique(open, first);
    }
}

/// The selected variant of a provider is that of the last pair which names it,
/// whatever the other pairs hold.
pub proof fn last_pair_of_a_provider_decides(
    selections: Seq<(Seq<char>, Seq<char>)>,
    provider: Seq<char>,
)
    ensures
        chosen(selections, provider) matches Some(variant) ==> exists|i: int|
            {
                &&& 0 <= i < selections.len()
                &&& #[trigger] selections[i] == (provider, variant)
                &&& forall|j: int| i < j < selections.len() ==> (#[trigger] selections[j]).0 != provider
            },
        chosen(selections, provider) is None <==> forall|i: int|
            0 <= i < selections.len() ==> (#[trigger] selections[i]).0 != provider,
    decreases selections.len(),
{
    if selections.len() > 0 {
        let (init, n) = (selections.drop_last(), selections.len() - 1);
        assert(selections[n] == selections.last());
        if selections.last().0 == provider {
            assert(selections[n] == (provider, selections.last().1));
        } else {
            last_pair_of_a_provider_decides(init, provider);
            if let Some(variant) = chosen(init, provider) {
                let i = choose|i: int|
                    {
                        &&& 0 <= i < init.len()
                        &&& #[trigger] init[i] == (provider, variant)
                        &&& forall|j: int| i < j < init.len() ==> (#[trigger] init[j]).0 != provider
                    };
                assert(selections[i] == (provider, variant));
                assert forall|j: int| i < j < selections.len() implies (#[trigger] selections[j]).0
                    != provider by {
                    if j < n {
                        assert(init[j] == selections[j]);
                    }
                }
            } else {
                assert forall|i: int| 0 <= i < selections.len() implies (#[trigger] selections[i]).0
                    != provider by {
                    if i < n {
                        assert(init[i] == selections[i]);
                    }
                }
            }
        }
    }
}

/// Where no provider is named twice, each pair says which variant is selected for
/// its provider.
pub proof fn each_pair_decides_for_its_provider(selections: Seq<(Seq<char>, Seq<char>)>, i: int)
    requires
        0 <= i < selections.len(),
        forall|j: int, k: int|
            0 <= j < k < selections.len() ==> (#[trigger] selections[j]).0 != (
            #[trigger] selections[k]).0,
    ensures
        chosen(selections, selections[i].0) == Some(selections[i].1),
{
    let provider = selections[i].0;
    last_pair_of_a_provider_decides(selections, provider);
    let variant = chosen(selections, provider)->0;
    let k = choose|k: int|
        {
            &&& 0 <= k < selections.len()
            &&& #[trigger] selections[k] == (provider, variant)
            &&& forall|j: int| k < j < selections.len() ==> (#[trigger] selections[j]).0 != provider
        };
    if k < i {
        assert(selections[k].0 != selections[i].0);
    } else if i < k {
        assert(selections[i].0 != selections[k].0);
    }
}

/// What a failed check says: a pair whose provider no file answered comes before a
/// provider that ships variants and is named by no pair, and of several the one
/// whose name's bytes come first is told.
pub proof fn failed_check_tells_the_first(
    selections: Seq<(Seq<char>, Seq<char>)>,
    variant_providers: Seq<Seq<char>>,
    selected: Seq<Seq<char>>,
)
    ensures
        (exists|i: int| 0 <= i < selections.len() && !selected.contains((#[trigger] selections[i]).0))
            ==> {
            &&& checked(selections, variant_providers, selected) matches Err(
                Failure::NoSuchVariant { provider, variant },
            )
            &&& selections.contains((provider, variant))
            &&& !selected.contains(provider)
            &&& forall|i: int|
                0 <= i < selections.len() && !selected.contains((#[trigger] selections[i]).0)
                    && selections[i].0 != provider ==> bytes_before(
                    encode_utf8(provider),
                    encode_utf8(selections[i].0),
                )
        },
        (forall|i: int| 0 <= i < selections.len() ==> selected.contains((#[trigger] selections[i]).0))
            ==> match checked(selections, variant_providers, selected) {
            Ok(_) => forall|k: int|
                0 <= k < variant_providers.len() ==> exists|i: int|
                    0 <= i < selections.len() && (#[trigger] selections[i]).0
                        == #[trigger] variant_providers[k],
            Err(Failure::NotSelected { provider }) => {
                &&& variant_providers.contains(provider)
                &&& forall|i: int| 0 <= i < selections.len() ==> (#[trigger] selections[i]).0 != provider
                &&& forall|k: int|
                    0 <= k < variant_providers.len() && #[trigger] variant_providers[k] != provider && (
                    forall|i: int|
                        0 <= i < selections.len() ==> (#[trigger] selections[i]).0
                            != variant_providers[k]) ==> bytes_before(
                        encode_utf8(provider),
                        encode_utf8(variant_providers[k]),
                    )
            },
            Err(_) => false,
        },
{
    let lost = unanswered(selections, selected);
    let open = undecided(selections, variant_providers);
    check_passes_when_complete(selections, variant_providers, selected);
    failed_check_names_the_first(selections, variant_providers, selected);
    if exists|i: int| 0 <= i < selections.len() && !selected.contains((#[trigger] selections[i]).0) {
        let k = choose|k: int|
            0 <= k < selections.len() && !selected.contains((#[trigger] selections[k]).0);
        last_pair_of_a_provider_decides(selections, selections[k].0);
        assert(lost(selections[k].0));
        let provider = first_of(lost);
        last_pair_of_a_provider_decides(selections, provider);
        assert forall|i: int|
            0 <= i < selections.len() && !selected.contains((#[trigger] selections[i]).0)
                && selections[i].0 != provider implies bytes_before(
            encode_utf8(provider),
            encode_utf8(selections[i].0),
        ) by {
            last_pair_of_a_provider_decides(selections, selections[i].0);
            assert(lost(selections[i].0));
            assert(text_before(provider, selections[i].0));
        }
    } else {
        assert forall|p: Seq<char>| !#[trigger] lost(p) by {
            last_pair_of_a_provider_decides(selections, p);
        }
        match checked(selections, variant_providers, selected) {
            Ok(_) => {
                assert forall|k: int| 0 <= k < variant_providers.len() implies exists|i: int|
                    0 <= i < selections.len() && (#[trigger] selections[i]).0
                        == #[trigger] variant_providers[k] by {
                    last_pair_of_a_provider_decides(selections, variant_providers[k]);
                }
            },
            Err(failure) => {
                let provider = first_of(open);
                last_pair_of_a_provider_decides(selections, provider);
                assert forall|k: int|
                    0 <= k < variant_providers.len() && #[trigger] variant_providers[k] != provider && (
                    forall|i: int|
                        0 <= i < selections.len() ==> (#[trigger] selections[i]).0
                            != variant_providers[k]) implies bytes_before(
                    encode_utf8(provider),
                    encode_utf8(variant_providers[k]),
                ) by {
                    last_pair_of_a_provider_decides(selections, variant_providers[k]);
                    assert(variant_providers.contains(variant_providers[k]));
                    assert(open(variant_providers[k]));
                    assert(text_before(provider, variant_providers[k]));
                }
            },
        }
    }
}

/// The model of selections holds each pair as it is.
pub proof fn pairs_are_kept(list: Seq<(String, String)>, i: int)
    requires
        0 <= i < list.len(),
    ensures
        pairs(list).len() == list.len(),
        pairs(list)[i] == (list[i].0@, list[i].1@),
{
}

/// What comes of a check is kept.
pub proof fn check_is_kept(e: RenderError)
    ensures
        check_view(Ok(())) == Ok::<(), Failure>(()),
        check_view(Err(e)) == Err::<(), Failure>(e@),
{
}

} // verus!
