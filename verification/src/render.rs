//! Putting the configuration together.

use vstd::prelude::*;

use crate::error::{Failure, RenderError};
use crate::files::{
    file_views, listing_order_does_not_matter, names_distinct, wanted, FileView, TemplateFile,
};
use crate::headers::{
    add_internal_header_strip, internal_headers, removed_headers, route_removes_internal_headers,
    strip_keeps_keys_distinct, stripped,
};
use crate::load::{
    asked_by, asked_by_files, given_by_files, is_mixed, is_seen, load_upstreams, loaded,
    may_be_read_as, may_give, may_load, names_of, only_wanted_texts_matter, readings, reads_as,
    reads_by, upstreams_are_possible_reads, wanted_files_are_loaded, Reader, Readings,
};
use crate::lua::{
    ids_asked, ids_variable, lists_by, lists_possible, slot_config, slot_config_lua, upper,
};
use crate::node::{trees, well_keyed, Node, Tree};
use crate::selection::pairs;
use crate::splice::{
    at_path, both, capped, count, fill, fill_for, filled, filled_items,
    filling_keeps_keys_distinct, filling_only_adds_the_items, fills_of, in_items, items_between,
    items_stand_in_a_row, marker_has_a_place,
    moved, moved_to, occurrences, parts_are_kept, tree_without_markers_is_kept, Fill,
};
use crate::text::opt_text;
use crate::tokens::{
    expanded, looks_up, may_ask, may_become, more_answers_allow_more, names, names_in, possible,
    steady_lookup_decides, substitute, text_result, told, unset_variable_is_an_error, Answers,
    Names, Possible,
};
use crate::upstream::{upstream_views, Upstream, UpstreamFile, UpstreamFileView, UpstreamView};
use crate::yaml::{json_text, nodes_of, read_yaml, write_json, yaml_tree};

verus! {

/// The list item that the routes of the upstreams take the place of.
pub const ROUTES_MARKER: &'static str = "gm:upstream-routes";

/// The list item that the clusters of the upstreams take the place of.
pub const CLUSTERS_MARKER: &'static str = "gm:upstream-clusters";

/// The variable that stands for the Lua `slot_config` table in the base file.
pub const SLOT_CONFIG_VARIABLE: &'static str = "GM_SLOT_CONFIG";

/// What one upstream adds to the base file.
#[derive(Debug)]
pub struct Contribution {
    pub provider: String,
    pub routes: Vec<Node>,
    pub clusters: Vec<Node>,
}

/// The model of a [`Contribution`].
pub struct ContributionView {
    pub provider: Seq<char>,
    pub routes: Seq<Tree>,
    pub clusters: Seq<Tree>,
}

impl View for Contribution {
    type V = ContributionView;

    open spec fn view(&self) -> ContributionView {
        ContributionView {
            provider: self.provider@,
            routes: trees(self.routes@),
            clusters: trees(self.clusters@),
        }
    }
}

/// The models of a list of contributions.
pub open spec fn contribution_views(list: Seq<Contribution>) -> Seq<ContributionView> {
    Seq::new(list.len(), |i: int| list[i]@)
}

/// What the upstreams add to the base file.
pub open spec fn contributions(upstreams: Seq<UpstreamView>) -> Seq<ContributionView> {
    Seq::new(
        upstreams.len(),
        |i: int|
            ContributionView {
                provider: upstreams[i].provider,
                routes: upstreams[i].file.routes,
                clusters: upstreams[i].file.clusters,
            },
    )
}

/// The routes of `provider`, each with the internal headers among those that it
/// removes; or the failure of the first that cannot have them.
pub open spec fn provider_routes(routes: Seq<Tree>, provider: Seq<char>) -> Result<
    Seq<Tree>,
    Failure,
>
    decreases routes.len(),
{
    if routes.len() == 0 {
        Ok(Seq::empty())
    } else {
        match provider_routes(routes.drop_last(), provider) {
            Err(failure) => Err(failure),
            Ok(list) => match stripped(routes.last(), provider) {
                Err(failure) => Err(failure),
                Ok(route) => Ok(list.push(route)),
            },
        }
    }
}

/// The routes of all contributions in a row.
pub open spec fn all_routes(list: Seq<ContributionView>) -> Result<Seq<Tree>, Failure>
    decreases list.len(),
{
    if list.len() == 0 {
        Ok(Seq::empty())
    } else {
        match all_routes(list.drop_last()) {
            Err(failure) => Err(failure),
            Ok(routes) => match provider_routes(list.last().routes, list.last().provider) {
                Err(failure) => Err(failure),
                Ok(more) => Ok(routes + more),
            },
        }
    }
}

/// The clusters of all contributions in a row.
pub open spec fn all_clusters(list: Seq<ContributionView>) -> Seq<Tree>
    decreases list.len(),
{
    if list.len() == 0 {
        Seq::empty()
    } else {
        all_clusters(list.drop_last()) + list.last().clusters
    }
}

/// The base with the routes and the clusters in place of their markers. It has to
/// hold each of them exactly once as it was read, whatever the upstreams hold.
pub open spec fn assembled(base: Tree, list: Seq<ContributionView>) -> Result<Tree, Failure> {
    match all_routes(list) {
        Err(failure) => Err(failure),
        Ok(routes) => if occurrences(base, ROUTES_MARKER@) != 1 {
            Err(marker_failure(base, ROUTES_MARKER@))
        } else if occurrences(base, CLUSTERS_MARKER@) != 1 {
            Err(marker_failure(base, CLUSTERS_MARKER@))
        } else {
            Ok(
                filled(
                    base,
                    both(ROUTES_MARKER@, routes, CLUSTERS_MARKER@, all_clusters(list)),
                ),
            )
        },
    }
}

/// What is wrong with a base that does not hold `marker` once.
pub open spec fn marker_failure(base: Tree, marker: Seq<char>) -> Failure {
    Failure::MarkerCount { marker, found: capped(occurrences(base, marker)) }
}

/// The answers for the base file, where one variable stands for the Lua table.
pub open spec fn with_slot_config(answers: Answers, config: Seq<char>) -> Answers {
    |name: Seq<char>|
        if name == SLOT_CONFIG_VARIABLE@ {
            Some(config)
        } else {
            answers(name)
        }
}

/// The answers that are possible for the base file.
pub open spec fn with_config(can: Possible, config: Seq<char>) -> Possible {
    |name: Seq<char>, value: Option<Seq<char>>|
        if name == SLOT_CONFIG_VARIABLE@ {
            value == Some(config)
        } else {
            can(name, value)
        }
}

/// The names that the tokens of the base file hold.
pub open spec fn asked_by_base(base: FileView) -> Names {
    |name: Seq<char>| base.text matches Ok(text) && names(text).contains(name)
}

/// The variable with the slot ids of a wanted file's provider, where the file can
/// be read as one with slots.
pub open spec fn ids_asked_by_files(
    files: Seq<FileView>,
    selections: Seq<(Seq<char>, Seq<char>)>,
    can: Possible,
    can_read: Readings,
) -> Names {
    |name: Seq<char>|
        exists|k: int, found: UpstreamFileView|
            {
                &&& 0 <= k < files.len()
                &&& wanted((#[trigger] files[k]).name, selections)
                &&& name == ids_variable(names_of(files[k]).0)
                &&& may_be_read_as(files[k], can, can_read, Ok(found))
                &&& (#[trigger] found.slots) is Some
            }
}

/// The variables that a render can ask for: those of the tokens of the base file
/// and of the wanted files, and those that list the slot ids of the providers
/// with slots.
pub open spec fn asked_by_render(
    base: FileView,
    files: Seq<FileView>,
    selections: Seq<(Seq<char>, Seq<char>)>,
    can: Possible,
    can_read: Readings,
) -> Names {
    |name: Seq<char>|
        {
            ||| asked_by_files(files, selections)(name)
            ||| asked_by_base(base)(name) && name != SLOT_CONFIG_VARIABLE@
            ||| ids_asked_by_files(files, selections, can, can_read)(name)
        }
}

/// What the base file, at `path`, is read as, where its text became `result`.
pub open spec fn parsed_as(result: Result<Seq<char>, Seq<char>>, path: Seq<char>) -> Result<
    Tree,
    Failure,
> {
    match told(result, path) {
        Err(failure) => Err(failure),
        Ok(text) => match yaml_tree(text) {
            Err(cause) => Err(Failure::Parse { path, cause }),
            Ok(tree) => Ok(tree),
        },
    }
}

/// What the base file is read as.
pub open spec fn parsed_base(base: FileView, answers: Answers) -> Result<Tree, Failure> {
    match base.text {
        Err(cause) => Err(Failure::ReadBase { path: base.path, cause }),
        Ok(text) => parsed_as(expanded(text, answers), base.path),
    }
}

/// What the base file can be read as.
pub open spec fn may_parse(base: FileView, can: Possible, parsed: Result<Tree, Failure>) -> bool {
    match base.text {
        Err(cause) => parsed == Err::<Tree, Failure>(Failure::ReadBase { path: base.path, cause }),
        Ok(text) => exists|result: Result<Seq<char>, Seq<char>>| #[trigger]
            may_become(text, can, result) && parsed == parsed_as(result, base.path),
    }
}

/// What is written for the upstreams and what the base file was read as.
pub open spec fn written(parsed: Result<Tree, Failure>, upstreams: Seq<UpstreamView>) -> Result<
    Seq<char>,
    Failure,
> {
    match parsed {
        Err(failure) => Err(failure),
        Ok(base) => match assembled(base, contributions(upstreams)) {
            Err(failure) => Err(failure),
            Ok(tree) => match json_text(tree) {
                Err(cause) => Err(Failure::Serialize { cause }),
                Ok(text) => Ok(text),
            },
        },
    }
}

/// What can be written for the upstreams and the base file.
pub open spec fn may_write(
    base: FileView,
    can: Possible,
    upstreams: Seq<UpstreamView>,
    result: Result<Seq<char>, Failure>,
) -> bool {
    exists|parsed: Result<Tree, Failure>| #[trigger]
        may_parse(base, can, parsed) && result == written(parsed, upstreams)
}

/// What can be rendered for the upstreams that were loaded.
pub open spec fn may_finish(
    base: FileView,
    can: Possible,
    upstreams: Seq<UpstreamView>,
    result: Result<Seq<char>, Failure>,
) -> bool {
    exists|lists: Seq<Option<Seq<char>>>| #[trigger]
        lists_possible(upstreams, can, lists) && may_write(
            base,
            with_config(can, slot_config(upstreams, lists)),
            upstreams,
            result,
        )
}

/// What [`render`] returns where each name has one answer, and each text one reading.
pub open spec fn rendered(
    base: FileView,
    files: Seq<FileView>,
    selections: Seq<(Seq<char>, Seq<char>)>,
    answers: Answers,
    reader: Reader,
) -> Result<Seq<char>, Failure> {
    match loaded(files, selections, reads_by(answers, reader)) {
        Err(failure) => Err(failure),
        Ok(upstreams) => {
            let config = slot_config(upstreams, lists_by(upstreams, answers));
            written(parsed_base(base, with_slot_config(answers, config)), upstreams)
        },
    }
}

/// What [`render`] can return for the answers and the readings that are possible.
pub open spec fn may_render(
    base: FileView,
    files: Seq<FileView>,
    selections: Seq<(Seq<char>, Seq<char>)>,
    can: Possible,
    can_read: Readings,
    result: Result<Seq<char>, Failure>,
) -> bool {
    exists|found: Result<Seq<UpstreamView>, Failure>| #[trigger]
        may_load(files, selections, can, can_read, found) && match found {
            Err(failure) => result == Err::<Seq<char>, Failure>(failure),
            Ok(upstreams) => may_finish(base, can, upstreams, result),
        }
}

/// The view of a node or a failure.
pub open spec fn node_result(r: Result<Node, RenderError>) -> Result<Tree, Failure> {
    match r {
        Ok(node) => Ok(node@),
        Err(e) => Err(e@),
    }
}

/// Every tree of the contributions has distinct keys.
pub open spec fn contributions_well_keyed(list: Seq<ContributionView>) -> bool {
    forall|i: int| 0 <= i < list.len() ==> contribution_well_keyed(#[trigger] list[i])
}

/// Every tree of the contribution has distinct keys.
pub open spec fn contribution_well_keyed(c: ContributionView) -> bool {
    &&& forall|j: int| 0 <= j < c.routes.len() ==> well_keyed(#[trigger] c.routes[j])
    &&& forall|j: int| 0 <= j < c.clusters.len() ==> well_keyed(#[trigger] c.clusters[j])
}

/// Reads the base file: its text with each token replaced, as YAML.
///
/// # Errors
/// Returns an error where the file could not be read, a token's variable has no
/// value, or the text is not YAML.
pub fn parse_rendered<E: Fn(&str) -> Option<String>>(file: &TemplateFile, env: &E) -> (r: Result<
    Node,
    RenderError,
>)
    requires
        may_ask(*env, asked_by_base(file@)),
    ensures
        may_parse(file@, possible(*env), node_result(r)),
        forall|answers: Answers|
            looks_up(*env, answers, asked_by_base(file@)) ==> node_result(r) == #[trigger] parsed_base(
                file@,
                answers,
            ),
        r matches Ok(node) ==> well_keyed(node@),
        file@.text is Err ==> r is Err,
{
    let text = match &file.text {
        Ok(text) => text,
        Err(cause) => {
            return Err(RenderError::ReadBase { path: file.path.clone(), cause: cause.clone() });
        },
    };
    let ghost can = possible(*env);
    assert(file@.text == Ok::<Seq<char>, Seq<char>>(text@));
    assert(names_in(text@) =~= asked_by_base(file@));
    let became = substitute(text, env, &file.path);
    let ghost result = choose|result: Result<Seq<char>, Seq<char>>| #[trigger]
        may_become(text@, can, result) && text_result(became) == told(result, file.path@);
    proof {
        assert forall|answers: Answers|
            looks_up(*env, answers, asked_by_base(file@)) implies result == #[trigger] expanded(
            text@,
            answers,
        ) by {
            assert forall|name: Seq<char>, value: Option<Seq<char>>| #[trigger]
                can(name, value) && names(text@).contains(name) implies value == answers(
                name,
            ) by {
                assert(asked_by_base(file@)(name));
            }
            steady_lookup_decides(text@, can, answers, result);
        }
    }
    match became {
        Ok(text) => read_yaml(&text, &file.path),
        Err(e) => Err(e),
    }
}

/// Adds the internal headers to what each route of `provider` removes.
fn strip_routes(routes: Vec<Node>, provider: &String) -> (r: Result<Vec<Node>, RenderError>)
    ensures
        match (r, provider_routes(trees(routes@), provider@)) {
            (Ok(list), Ok(all)) => trees(list@) == all,
            (Err(e), Err(failure)) => e@ == failure,
            _ => false,
        },
{
    let ghost all = trees(routes@);
    let mut out: Vec<Node> = Vec::new();
    assert(trees(out@) =~= Seq::<Tree>::empty());
    for route in it: routes.into_iter()
        invariant
            it.seq() == routes@,
            all == trees(routes@),
            provider_routes(all.take(it.index() as int), provider@) == Ok::<Seq<Tree>, Failure>(
                trees(out@),
            ),
    {
        let ghost i = it.index() as int;
        let ghost before = trees(out@);
        proof {
            assert(all.take(i + 1).drop_last() =~= all.take(i));
            assert(all.take(i + 1).last() == route@);
        }
        let mut route = route;
        if let Err(e) = add_internal_header_strip(&mut route, provider) {
            proof {
                failed_routes_stay(all, provider@, i + 1);
            }
            return Err(e);
        }
        out.push(route);
        assert(trees(out@) =~= before.push(route@));
    }
    assert(all.take(all.len() as int) =~= all);
    Ok(out)
}

proof fn failed_routes_stay(routes: Seq<Tree>, provider: Seq<char>, n: int)
    requires
        0 <= n <= routes.len(),
        provider_routes(routes.take(n), provider) is Err,
    ensures
        provider_routes(routes, provider) == provider_routes(routes.take(n), provider),
    decreases routes.len() - n,
{
    if n < routes.len() {
        assert(routes.take(n + 1).drop_last() =~= routes.take(n));
        failed_routes_stay(routes, provider, n + 1);
    } else {
        assert(routes.take(n) =~= routes);
    }
}

proof fn failed_contributions_stay(list: Seq<ContributionView>, n: int)
    requires
        0 <= n <= list.len(),
        all_routes(list.take(n)) is Err,
    ensures
        all_routes(list) == all_routes(list.take(n)),
    decreases list.len() - n,
{
    if n < list.len() {
        assert(list.take(n + 1).drop_last() =~= list.take(n));
        failed_contributions_stay(list, n + 1);
    } else {
        assert(list.take(n) =~= list);
    }
}

/// Puts the routes and the clusters of the upstreams in place of their markers
/// in the base, and adds the internal headers to what each of those routes
/// removes.
///
/// # Errors
/// Returns an error where a route is not as it should be, or where the base does
/// not hold each marker exactly once.
pub fn assemble(base: Node, list: Vec<Contribution>) -> (r: Result<Node, RenderError>)
    ensures
        node_result(r) == assembled(base@, contribution_views(list@)),
{
    let ghost all = contribution_views(list@);
    let mut routes: Vec<Node> = Vec::new();
    let mut clusters: Vec<Node> = Vec::new();
    proof {
        assert(trees(routes@) =~= Seq::<Tree>::empty());
        assert(trees(clusters@) =~= Seq::<Tree>::empty());
    }
    for part in it: list.into_iter()
        invariant
            it.seq() == list@,
            all == contribution_views(list@),
            all_routes(all.take(it.index() as int)) == Ok::<Seq<Tree>, Failure>(trees(routes@)),
            all_clusters(all.take(it.index() as int)) == trees(clusters@),
    {
        let ghost i = it.index() as int;
        let ghost (r0, c0) = (trees(routes@), trees(clusters@));
        proof {
            assert(all.take(i + 1).drop_last() =~= all.take(i));
            assert(all.take(i + 1).last() == part@);
        }
        let Contribution { provider, routes: own_routes, clusters: own_clusters } = part;
        let mut more = match strip_routes(own_routes, &provider) {
            Ok(more) => more,
            Err(e) => {
                proof {
                    failed_contributions_stay(all, i + 1);
                }
                return Err(e);
            },
        };
        let ghost m = trees(more@);
        routes.append(&mut more);
        assert(trees(routes@) =~= r0 + m);
        let mut more_clusters = own_clusters;
        clusters.append(&mut more_clusters);
        assert(trees(clusters@) =~= c0 + trees(own_clusters@));
    }
    assert(all.take(all.len() as int) =~= all);
    let marker = ROUTES_MARKER.to_owned();
    let found = count(&base, &marker);
    if found != 1 {
        return Err(RenderError::MarkerCount { marker, found });
    }
    let other = CLUSTERS_MARKER.to_owned();
    let found = count(&base, &other);
    if found != 1 {
        return Err(RenderError::MarkerCount { marker: other, found });
    }
    let ghost fills = both(marker@, trees(routes@), other@, trees(clusters@));
    let mut fill_list: Vec<Fill> = Vec::new();
    fill_list.push(Fill { marker: other, items: clusters });
    fill_list.push(Fill { marker, items: routes });
    proof {
        reveal_with_fuel(fill_for, 3);
        let rest = fill_list@.drop_last();
        assert(rest.last() == fill_list@[0]);
        assert(rest.drop_last() =~= Seq::<Fill>::empty());
        assert(fills_of(fill_list@) =~= fills);
    }
    Ok(fill(base, &mut fill_list))
}

/// What the upstreams add to the base file.
fn contributions_of(upstreams: Vec<Upstream>) -> (r: Vec<Contribution>)
    ensures
        contribution_views(r@) == contributions(upstream_views(upstreams@)),
        contributions_well_keyed(contribution_views(r@)),
{
    let ghost all = contributions(upstream_views(upstreams@));
    let mut out: Vec<Contribution> = Vec::new();
    for upstream in it: upstreams.into_iter()
        invariant
            it.seq() == upstreams@,
            all == contributions(upstream_views(upstreams@)),
            out@.len() == it.index(),
            forall|i: int| 0 <= i < out@.len() ==> (#[trigger] out@[i])@ == all[i],
            forall|i: int| 0 <= i < out@.len() ==> contribution_well_keyed((#[trigger] out@[i])@),
    {
        let Upstream { provider, file } = upstream;
        let UpstreamFile { slots: _, routes, clusters } = file;
        let routes = nodes_of(routes);
        let clusters = nodes_of(clusters);
        let part = Contribution { provider, routes, clusters };
        proof {
            assert forall|j: int| 0 <= j < part@.routes.len() implies well_keyed(
                #[trigger] part@.routes[j],
            ) by {
                assert(part@.routes[j] == routes@[j]@);
            }
            assert forall|j: int| 0 <= j < part@.clusters.len() implies well_keyed(
                #[trigger] part@.clusters[j],
            ) by {
                assert(part@.clusters[j] == clusters@[j]@);
            }
        }
        out.push(part);
    }
    assert(contribution_views(out@) =~= all);
    out
}

proof fn provider_routes_are_well_keyed(routes: Seq<Tree>, provider: Seq<char>)
    requires
        provider_routes(routes, provider) is Ok,
        forall|j: int| 0 <= j < routes.len() ==> well_keyed(#[trigger] routes[j]),
    ensures
        forall|j: int|
            0 <= j < provider_routes(routes, provider)->Ok_0.len() ==> well_keyed(
                #[trigger] provider_routes(routes, provider)->Ok_0[j],
            ),
    decreases routes.len(),
{
    if routes.len() > 0 {
        provider_routes_are_well_keyed(routes.drop_last(), provider);
        assert(well_keyed(routes[routes.len() - 1]));
        strip_keeps_keys_distinct(routes.last(), provider);
    }
}

proof fn all_routes_are_well_keyed(list: Seq<ContributionView>)
    requires
        all_routes(list) is Ok,
        contributions_well_keyed(list),
    ensures
        forall|j: int|
            0 <= j < all_routes(list)->Ok_0.len() ==> well_keyed(
                #[trigger] all_routes(list)->Ok_0[j],
            ),
    decreases list.len(),
{
    if list.len() > 0 {
        let init = list.drop_last();
        assert forall|i: int| 0 <= i < init.len() implies contribution_well_keyed(
            #[trigger] init[i],
        ) by {
            assert(init[i] == list[i]);
        }
        all_routes_are_well_keyed(init);
        assert(contribution_well_keyed(list[list.len() - 1]));
        provider_routes_are_well_keyed(list.last().routes, list.last().provider);
    }
}

proof fn all_clusters_are_well_keyed(list: Seq<ContributionView>)
    requires
        contributions_well_keyed(list),
    ensures
        forall|j: int|
            0 <= j < all_clusters(list).len() ==> well_keyed(#[trigger] all_clusters(list)[j]),
    decreases list.len(),
{
    if list.len() > 0 {
        let init = list.drop_last();
        assert forall|i: int| 0 <= i < init.len() implies contribution_well_keyed(
            #[trigger] init[i],
        ) by {
            assert(init[i] == list[i]);
        }
        all_clusters_are_well_keyed(init);
        assert(contribution_well_keyed(list[list.len() - 1]));
        let (before, own) = (all_clusters(init), list.last().clusters);
        assert forall|j: int| 0 <= j < all_clusters(list).len() implies well_keyed(
            #[trigger] all_clusters(list)[j],
        ) by {
            if j < before.len() {
                assert(all_clusters(list)[j] == before[j]);
            } else {
                assert(all_clusters(list)[j] == own[j - before.len()]);
            }
        }
    }
}

/// Assembling keeps keys distinct: no mapping of the result has two entries with
/// the same key.
pub proof fn assembling_keeps_keys_distinct(base: Tree, list: Seq<ContributionView>)
    requires
        assembled(base, list) is Ok,
        well_keyed(base),
        contributions_well_keyed(list),
    ensures
        well_keyed(assembled(base, list)->Ok_0),
{
    all_routes_are_well_keyed(list);
    all_clusters_are_well_keyed(list);
    let fills = both(ROUTES_MARKER@, all_routes(list)->Ok_0, CLUSTERS_MARKER@, all_clusters(list));
    filling_keeps_keys_distinct(base, fills);
}

/// The lookup `env` can be asked for `name`.
spec fn can_be_asked<E: Fn(&str) -> Option<String>>(env: &E, name: &str) -> bool {
    call_requires(*env, (name,))
}

/// Renders the full Envoy config from the base file and the files of the
/// upstream directory, as JSON.
///
/// `selections` picks one variant for each provider that ships variant files
/// (`anthropic.foundry.yaml` is selected by `("anthropic", "foundry")`), `env`
/// resolves `GM_*` variables, and `parse` reads the text of an upstream file.
///
/// JSON, not YAML: every string is quoted, so no scalar can be retyped on the
/// way into Envoy (unquoted YAML turns `2023-06-01` into a date and `on` into a
/// bool). Envoy's YAML loader reads JSON as-is.
///
/// # Errors
/// Returns an error when a file is missing or malformed, a token has no
/// variable, a selection matches no file, or a marker is absent.
pub fn render<E: Fn(&str) -> Option<String>, P: Fn(&str) -> Result<UpstreamFile, String>>(
    base: &TemplateFile,
    files: &Vec<TemplateFile>,
    selections: &Vec<(String, String)>,
    env: &E,
    parse: &P,
) -> (r: Result<String, RenderError>)
    requires
        may_ask(
            *env,
            asked_by_render(
                base@,
                file_views(files@),
                pairs(selections@),
                possible(*env),
                readings(*parse),
            ),
        ),
        may_give(
            *parse,
            given_by_files(file_views(files@), pairs(selections@), possible(*env)),
        ),
    ensures
        may_render(
            base@,
            file_views(files@),
            pairs(selections@),
            possible(*env),
            readings(*parse),
            text_result(r),
        ),
        forall|answers: Answers, reader: Reader|
            looks_up(
                *env,
                answers,
                asked_by_render(
                    base@,
                    file_views(files@),
                    pairs(selections@),
                    possible(*env),
                    readings(*parse),
                ),
            ) && reads_as(
                *parse,
                reader,
                given_by_files(file_views(files@), pairs(selections@), possible(*env)),
            ) ==> text_result(r) == #[trigger] rendered(
                base@,
                file_views(files@),
                pairs(selections@),
                answers,
                reader,
            ),
        base@.text is Err ==> r is Err,
        is_mixed(file_views(files@)) ==> r is Err,
{
    let ghost (views, chosen_pairs) = (file_views(files@), pairs(selections@));
    let ghost (can, can_read) = (possible(*env), readings(*parse));
    let ghost asked = asked_by_render(base@, views, chosen_pairs, can, can_read);
    let upstreams = match load_upstreams(files, selections, env, parse) {
        Ok(upstreams) => upstreams,
        Err(e) => {
            return Err(e);
        },
    };
    let ghost ups = upstream_views(upstreams@);
    proof {
        assert(may_load(views, chosen_pairs, can, can_read, Ok(ups)));
        assert forall|name: Seq<char>| #[trigger] ids_asked(ups)(name) implies asked(name) by {
            upstreams_ask_for_ids(views, chosen_pairs, can, can_read, ups, name);
        }
    }
    let config = slot_config_lua(&upstreams, env);
    let ghost lists = choose|lists: Seq<Option<Seq<char>>>| #[trigger]
        lists_possible(ups, can, lists) && config@ == slot_config(ups, lists);
    let variable = SLOT_CONFIG_VARIABLE.to_owned();
    let base_env = |name: &str| -> (value: Option<String>)
        requires
            name@ != SLOT_CONFIG_VARIABLE@ ==> can_be_asked(env, name),
        ensures
            name@ == SLOT_CONFIG_VARIABLE@ ==> opt_text(value) == Some(config@),
            name@ != SLOT_CONFIG_VARIABLE@ ==> call_ensures(*env, (name,), value),
        {
            if name.to_owned() == variable {
                Some(config.clone())
            } else {
                env(name)
            }
        };
    proof {
        assert forall|name: &str| asked_by_base(base@)(name@) implies #[trigger] call_requires(
            base_env,
            (name,),
        ) by {
            if name@ != SLOT_CONFIG_VARIABLE@ {
                assert(asked(name@));
            }
        }
        assert forall|answers: Answers, reader: Reader|
            looks_up(*env, answers, asked) && reads_as(
                *parse,
                reader,
                given_by_files(views, chosen_pairs, can),
            ) implies loaded(views, chosen_pairs, #[trigger] reads_by(answers, reader)) == Ok::<
            Seq<UpstreamView>,
            Failure,
        >(ups) && config@ == slot_config(ups, lists_by(ups, answers)) && looks_up(
            base_env,
            with_slot_config(answers, config@),
            asked_by_base(base@),
        ) by {
            assert(looks_up(*env, answers, asked_by_files(views, chosen_pairs)));
            assert(looks_up(*env, answers, ids_asked(ups)));
            assert(config@ == slot_config(ups, lists_by(ups, answers)));
        }
    }
    let parsed = parse_rendered(base, &base_env);
    proof {
        let given = with_config(can, config@);
        assert forall|name: Seq<char>, value: Option<Seq<char>>| #[trigger]
            possible(base_env)(name, value) implies given(name, value) by {}
        if let Ok(text) = base@.text {
            let result = choose|result: Result<Seq<char>, Seq<char>>| #[trigger]
                may_become(text, possible(base_env), result) && node_result(parsed) == parsed_as(
                    result,
                    base@.path,
                );
            more_answers_allow_more(text, possible(base_env), given, result);
        }
        assert(given == with_config(can, slot_config(ups, lists)));
        assert(may_parse(base@, given, node_result(parsed)));
    }
    let ghost outcome = node_result(parsed);
    let tree = match parsed {
        Ok(tree) => tree,
        Err(e) => {
            proof {
                let result = Err::<Seq<char>, Failure>(e@);
                assert(may_write(base@, with_config(can, config@), ups, result));
                what_is_written_is_rendered(
                    base@,
                    views,
                    chosen_pairs,
                    can,
                    can_read,
                    ups,
                    lists,
                    result,
                );
            }
            return Err(e);
        },
    };
    let list = contributions_of(upstreams);
    match assemble(tree, list) {
        Ok(root) => {
            proof {
                assembling_keeps_keys_distinct(tree@, contribution_views(list@));
            }
            let r = write_json(root);
            proof {
                let result = text_result(r);
                assert(written(outcome, ups) == result);
                assert(may_write(base@, with_config(can, config@), ups, result));
                what_is_written_is_rendered(
                    base@,
                    views,
                    chosen_pairs,
                    can,
                    can_read,
                    ups,
                    lists,
                    result,
                );
            }
            r
        },
        Err(e) => {
            proof {
                let result = Err::<Seq<char>, Failure>(e@);
                assert(may_write(base@, with_config(can, config@), ups, result));
                what_is_written_is_rendered(
                    base@,
                    views,
                    chosen_pairs,
                    can,
                    can_read,
                    ups,
                    lists,
                    result,
                );
            }
            Err(e)
        },
    }
}

/// What can be written for the upstreams that were loaded can be rendered.
proof fn what_is_written_is_rendered(
    base: FileView,
    files: Seq<FileView>,
    selections: Seq<(Seq<char>, Seq<char>)>,
    can: Possible,
    can_read: Readings,
    ups: Seq<UpstreamView>,
    lists: Seq<Option<Seq<char>>>,
    result: Result<Seq<char>, Failure>,
)
    requires
        may_load(files, selections, can, can_read, Ok(ups)),
        lists_possible(ups, can, lists),
        may_write(base, with_config(can, slot_config(ups, lists)), ups, result),
    ensures
        may_render(base, files, selections, can, can_read, result),
{
    let found = Ok::<Seq<UpstreamView>, Failure>(ups);
    assert(may_finish(base, can, ups, result));
    assert(may_load(files, selections, can, can_read, found));
}

/// The variables with the slot ids of the upstreams are those of files with slots.
proof fn upstreams_ask_for_ids(
    files: Seq<FileView>,
    selections: Seq<(Seq<char>, Seq<char>)>,
    can: Possible,
    can_read: Readings,
    ups: Seq<UpstreamView>,
    name: Seq<char>,
)
    requires
        may_load(files, selections, can, can_read, Ok(ups)),
        ids_asked(ups)(name),
    ensures
        ids_asked_by_files(files, selections, can, can_read)(name),
{
    let i = choose|i: int|
        0 <= i < ups.len() && (#[trigger] ups[i]).file.slots is Some && name == ids_variable(
            ups[i].provider,
        );
    upstreams_are_possible_reads(files, selections, can, can_read, ups, i);
    let k = choose|k: int|
        {
            &&& 0 <= k < files.len()
            &&& wanted((#[trigger] files[k]).name, selections)
            &&& names_of(files[k]).0 == ups[i].provider
            &&& may_be_read_as(files[k], can, can_read, Ok(ups[i].file))
        };
    assert(wanted(files[k].name, selections) && ups[i].file.slots is Some);
}

proof fn provider_routes_remove_internal(routes: Seq<Tree>, provider: Seq<char>, i: int, h: int)
    requires
        provider_routes(routes, provider) is Ok,
        forall|j: int| 0 <= j < routes.len() ==> well_keyed(#[trigger] routes[j]),
        0 <= i < routes.len(),
        0 <= h < internal_headers().len(),
    ensures
        provider_routes(routes, provider)->Ok_0.len() == routes.len(),
        removed_headers(provider_routes(routes, provider)->Ok_0[i]).contains(
            internal_headers()[h],
        ),
    decreases routes.len(),
{
    let init = routes.drop_last();
    let last = routes.last();
    assert(well_keyed(routes[routes.len() - 1]));
    provider_routes_len(routes, provider);
    if i < init.len() {
        provider_routes_remove_internal(init, provider, i, h);
    } else {
        let x = internal_headers()[h];
        assert(internal_headers().contains(x));
        route_removes_internal_headers(last, provider, x);
    }
}

proof fn provider_routes_len(routes: Seq<Tree>, provider: Seq<char>)
    requires
        provider_routes(routes, provider) is Ok,
    ensures
        provider_routes(routes, provider)->Ok_0.len() == routes.len(),
    decreases routes.len(),
{
    if routes.len() > 0 {
        provider_routes_len(routes.drop_last(), provider);
    }
}

/// Every route of every upstream removes every internal header.
pub proof fn every_route_removes_internal_headers(list: Seq<ContributionView>, i: int, h: int)
    requires
        all_routes(list) is Ok,
        contributions_well_keyed(list),
        0 <= i < all_routes(list)->Ok_0.len(),
        0 <= h < internal_headers().len(),
    ensures
        removed_headers(all_routes(list)->Ok_0[i]).contains(internal_headers()[h]),
    decreases list.len(),
{
    if list.len() > 0 {
        let init = list.drop_last();
        let last = list.last();
        assert forall|k: int| 0 <= k < init.len() implies contribution_well_keyed(
            #[trigger] init[k],
        ) by {
            assert(init[k] == list[k]);
        }
        assert(contribution_well_keyed(list[list.len() - 1]));
        let before = all_routes(init)->Ok_0;
        if i < before.len() {
            every_route_removes_internal_headers(init, i, h);
        } else {
            provider_routes_len(last.routes, last.provider);
            provider_routes_remove_internal(last.routes, last.provider, i - before.len(), h);
        }
    }
}

/// A missing value stops the render: where a configuration comes out, every
/// variable that a token of a wanted file or of the base file names has a value,
/// but for the one that stands for the Lua table.
pub proof fn missing_value_stops_the_render(
    base: FileView,
    files: Seq<FileView>,
    selections: Seq<(Seq<char>, Seq<char>)>,
    answers: Answers,
    reader: Reader,
    name: Seq<char>,
)
    requires
        rendered(base, files, selections, answers, reader) is Ok,
        asked_by_files(files, selections)(name) || asked_by_base(base)(name) && name
            != SLOT_CONFIG_VARIABLE@,
    ensures
        answers(name) is Some,
{
    let reads = reads_by(answers, reader);
    let ups = loaded(files, selections, reads)->Ok_0;
    if asked_by_files(files, selections)(name) {
        let k = choose|k: int|
            0 <= k < files.len() && asked_by(#[trigger] files[k], selections)(name);
        let text = files[k].text->Ok_0;
        wanted_files_are_loaded(files, selections, reads, files[k]);
        unset_variable_is_an_error(text, answers);
        let i = choose|i: int| 0 <= i < names(text).len() && names(text)[i] == name;
        assert(answers(names(text)[i]) is Some);
    } else {
        let text = base.text->Ok_0;
        let given = with_slot_config(answers, slot_config(ups, lists_by(ups, answers)));
        unset_variable_is_an_error(text, given);
        let i = choose|i: int| 0 <= i < names(text).len() && names(text)[i] == name;
        assert(given(names(text)[i]) is Some);
    }
}

/// The order in which the directory lists the upstream files does not matter.
pub proof fn render_ignores_the_listing_order(
    base: FileView,
    a: Seq<FileView>,
    b: Seq<FileView>,
    selections: Seq<(Seq<char>, Seq<char>)>,
    answers: Answers,
    reader: Reader,
)
    requires
        names_distinct(a),
        a.to_multiset() == b.to_multiset(),
    ensures
        rendered(base, a, selections, answers, reader) == rendered(
            base,
            b,
            selections,
            answers,
            reader,
        ),
{
    listing_order_does_not_matter(a, b);
}

/// Other files, and the texts of upstream files that are not wanted, do not matter.
pub proof fn render_ignores_unwanted_texts(
    base: FileView,
    a: Seq<FileView>,
    b: Seq<FileView>,
    selections: Seq<(Seq<char>, Seq<char>)>,
    answers: Answers,
    reader: Reader,
)
    requires
        names_distinct(a),
        names_distinct(b),
        forall|view: FileView| #[trigger]
            is_seen(a, selections, view) <==> is_seen(b, selections, view),
    ensures
        rendered(base, a, selections, answers, reader) == rendered(
            base,
            b,
            selections,
            answers,
            reader,
        ),
{
    only_wanted_texts_matter(a, b, selections, reads_by(answers, reader));
}

/// The base has to hold each marker exactly once, as it was read: what the
/// upstreams hold is not counted.
pub proof fn markers_are_needed_once(base: Tree, list: Seq<ContributionView>)
    ensures
        assembled(base, list) is Ok <==> {
            &&& all_routes(list) is Ok
            &&& occurrences(base, ROUTES_MARKER@) == 1
            &&& occurrences(base, CLUSTERS_MARKER@) == 1
        },
        all_routes(list) is Ok && occurrences(base, ROUTES_MARKER@) != 1 ==> assembled(base, list)
            == Err::<Tree, Failure>(marker_failure(base, ROUTES_MARKER@)),
        all_routes(list) is Ok && occurrences(base, ROUTES_MARKER@) == 1 && occurrences(
            base,
            CLUSTERS_MARKER@,
        ) != 1 ==> assembled(base, list) == Err::<Tree, Failure>(
            marker_failure(base, CLUSTERS_MARKER@),
        ),
{
}

proof fn markers_differ()
    ensures
        ROUTES_MARKER@ != CLUSTERS_MARKER@,
{
    reveal_strlit("gm:upstream-routes");
    reveal_strlit("gm:upstream-clusters");
    assert(ROUTES_MARKER@.len() != CLUSTERS_MARKER@.len());
}

/// Some list of the tree holds the items in a row.
pub open spec fn holds_in_a_row(tree: Tree, items: Seq<Tree>) -> bool {
    exists|path: Seq<int>, start: int| #[trigger] row_at(tree, path, start, items)
}

/// The list at `path` holds the items in a row, the first of them at `start`.
pub open spec fn row_at(tree: Tree, path: Seq<int>, start: int, items: Seq<Tree>) -> bool {
    at_path(tree, path) matches Some(Tree::Sequence(list)) && 0 <= start <= start + items.len()
        <= list.len() && list.subrange(start, start + items.len()) == items
}

/// The assembled tree holds the routes of the upstreams in a row, each as it is
/// with the internal headers, and so it holds their clusters, each as it is.
pub proof fn routes_and_clusters_stand_in_a_row(base: Tree, list: Seq<ContributionView>)
    requires
        assembled(base, list) is Ok,
    ensures
        holds_in_a_row(assembled(base, list)->Ok_0, all_routes(list)->Ok_0),
        holds_in_a_row(assembled(base, list)->Ok_0, all_clusters(list)),
{
    let (routes, clusters) = (all_routes(list)->Ok_0, all_clusters(list));
    let fills = both(ROUTES_MARKER@, routes, CLUSTERS_MARKER@, clusters);
    let now = assembled(base, list)->Ok_0;
    markers_differ();
    let (path, at) = marker_has_a_place(base, ROUTES_MARKER@);
    items_stand_in_a_row(base, path, at, fills);
    let start = moved_to(at_path(base, path)->0->Sequence_0, at, fills);
    assert(row_at(now, moved(base, path, fills), start, routes));
    let (path, at) = marker_has_a_place(base, CLUSTERS_MARKER@);
    items_stand_in_a_row(base, path, at, fills);
    let start = moved_to(at_path(base, path)->0->Sequence_0, at, fills);
    assert(row_at(now, moved(base, path, fills), start, clusters));
}

/// What stands in the base and holds no marker stands in the assembled tree too.
pub proof fn base_is_kept(base: Tree, list: Seq<ContributionView>, path: Seq<int>)
    requires
        assembled(base, list) is Ok,
        at_path(base, path) matches Some(part) && {
            &&& part != Tree::Text(ROUTES_MARKER@) && part != Tree::Text(CLUSTERS_MARKER@)
            &&& occurrences(part, ROUTES_MARKER@) == 0 && occurrences(part, CLUSTERS_MARKER@) == 0
        },
    ensures
        exists|way: Seq<int>| #[trigger]
            at_path(assembled(base, list)->Ok_0, way) == at_path(base, path),
{
    let fills = both(ROUTES_MARKER@, all_routes(list)->Ok_0, CLUSTERS_MARKER@, all_clusters(list));
    parts_are_kept(base, path, fills);
    tree_without_markers_is_kept(at_path(base, path)->0, fills);
    assert(at_path(assembled(base, list)->Ok_0, moved(base, path, fills)) == at_path(base, path));
}

/// Every route of every upstream stands in the assembled tree, and removes every
/// internal header there.
pub proof fn assembled_routes_remove_internal_headers(
    base: Tree,
    list: Seq<ContributionView>,
    i: int,
)
    requires
        assembled(base, list) is Ok,
        contributions_well_keyed(list),
        0 <= i < all_routes(list)->Ok_0.len(),
    ensures
        exists|path: Seq<int>|
            {
                &&& #[trigger] at_path(assembled(base, list)->Ok_0, path) == Some(
                    all_routes(list)->Ok_0[i],
                )
                &&& forall|h: int|
                    0 <= h < internal_headers().len() ==> removed_headers(
                        at_path(assembled(base, list)->Ok_0, path)->0,
                    ).contains(#[trigger] internal_headers()[h])
            },
{
    let routes = all_routes(list)->Ok_0;
    let now = assembled(base, list)->Ok_0;
    routes_and_clusters_stand_in_a_row(base, list);
    let (path, start) = choose|path: Seq<int>, start: int| #[trigger]
        row_at(now, path, start, routes);
    let row = at_path(now, path)->0->Sequence_0;
    assert(row.subrange(start, start + routes.len())[i] == row[start + i]);
    step_down(now, path, start + i);
    let way = path.push(start + i);
    assert(at_path(now, way) == Some(routes[i]));
    assert forall|h: int| 0 <= h < internal_headers().len() implies removed_headers(
        at_path(now, way)->0,
    ).contains(#[trigger] internal_headers()[h]) by {
        every_route_removes_internal_headers(list, i, h);
    }
}

/// One more step of a path picks an item of the list at its end.
proof fn step_down(tree: Tree, path: Seq<int>, k: int)
    requires
        at_path(tree, path) matches Some(Tree::Sequence(list)) && 0 <= k < list.len(),
    ensures
        at_path(tree, path.push(k)) == Some(at_path(tree, path)->0->Sequence_0[k]),
    decreases path.len(),
{
    let longer = path.push(k);
    if path.len() == 0 {
        assert(longer.skip(1) =~= Seq::<int>::empty());
        assert(at_path(tree->Sequence_0[k], longer.skip(1)) == Some(tree->Sequence_0[k]));
    } else {
        assert(longer.skip(1) =~= path.skip(1).push(k));
        match tree {
            Tree::Sequence(items) => {
                step_down(items[path[0]], path.skip(1), k);
            },
            Tree::Mapping(entries) => {
                step_down(entries[path[0]].1, path.skip(1), k);
            },
            Tree::Tagged(_, inner) => {
                step_down(*inner, path.skip(1), k);
            },
            _ => {},
        }
    }
}

/// Where the upstreams hold no marker, a base with each marker once is
/// assembled, and no marker is left.
pub proof fn no_marker_is_left(base: Tree, list: Seq<ContributionView>)
    requires
        all_routes(list) is Ok,
        occurrences(base, ROUTES_MARKER@) == 1,
        occurrences(base, CLUSTERS_MARKER@) == 1,
        in_items(all_routes(list)->Ok_0, ROUTES_MARKER@) == 0,
        in_items(all_routes(list)->Ok_0, CLUSTERS_MARKER@) == 0,
        in_items(all_clusters(list), ROUTES_MARKER@) == 0,
        in_items(all_clusters(list), CLUSTERS_MARKER@) == 0,
    ensures
        assembled(base, list) is Ok,
        occurrences(assembled(base, list)->Ok_0, ROUTES_MARKER@) == 0,
        occurrences(assembled(base, list)->Ok_0, CLUSTERS_MARKER@) == 0,
{
    let (r, c) = (ROUTES_MARKER@, CLUSTERS_MARKER@);
    let (routes, clusters) = (all_routes(list)->Ok_0, all_clusters(list));
    markers_differ();
    filling_only_adds_the_items(base, r, routes, c, clusters, r);
    filling_only_adds_the_items(base, r, routes, c, clusters, c);
}

/// The texts that the base file is searched for.
pub proof fn markers_and_variable()
    ensures
        ROUTES_MARKER@ == "gm:upstream-routes"@,
        CLUSTERS_MARKER@ == "gm:upstream-clusters"@,
        SLOT_CONFIG_VARIABLE@ == "GM_SLOT_CONFIG"@,
{
}

/// What an upstream adds to the base file: all routes and all clusters of its file,
/// under its provider.
pub proof fn upstream_adds_all_it_holds(upstreams: Seq<UpstreamView>, i: int)
    requires
        0 <= i < upstreams.len(),
    ensures
        contributions(upstreams).len() == upstreams.len(),
        contributions(upstreams)[i].provider == upstreams[i].provider,
        contributions(upstreams)[i].routes == upstreams[i].file.routes,
        contributions(upstreams)[i].clusters == upstreams[i].file.clusters,
{
}

/// A contribution holds what its lists hold.
pub proof fn contribution_is_kept(list: Seq<Contribution>, i: int, k: int)
    requires
        0 <= i < list.len(),
    ensures
        contribution_views(list).len() == list.len(),
        contribution_views(list)[i].provider == list[i].provider@,
        contribution_views(list)[i].routes.len() == list[i].routes@.len(),
        0 <= k < list[i].routes@.len() ==> contribution_views(list)[i].routes[k]
            == list[i].routes@[k]@,
        contribution_views(list)[i].clusters.len() == list[i].clusters@.len(),
        0 <= k < list[i].clusters@.len() ==> contribution_views(list)[i].clusters[k]
            == list[i].clusters@[k]@,
{
}

/// What comes of an assembly is kept.
pub proof fn assembly_is_kept(node: Node, e: RenderError)
    ensures
        node_result(Ok(node)) == Ok::<Tree, Failure>(node@),
        node_result(Err(e)) == Err::<Tree, Failure>(e@),
{
}

/// The routes of an upstream with the internal headers.
pub open spec fn own_routes(upstream: UpstreamView) -> Seq<Tree> {
    Seq::new(
        upstream.file.routes.len(),
        |k: int| stripped(upstream.file.routes[k], upstream.provider)->Ok_0,
    )
}

proof fn provider_routes_one_by_one(routes: Seq<Tree>, provider: Seq<char>)
    ensures
        provider_routes(routes, provider) is Ok <==> forall|k: int|
            0 <= k < routes.len() ==> stripped(#[trigger] routes[k], provider) is Ok,
        provider_routes(routes, provider) matches Ok(list) ==> list == Seq::new(
            routes.len(),
            |k: int| stripped(routes[k], provider)->Ok_0,
        ),
    decreases routes.len(),
{
    if routes.len() > 0 {
        let (init, last) = (routes.drop_last(), routes.last());
        let n = routes.len() - 1;
        provider_routes_one_by_one(init, provider);
        assert(routes[n] == last);
        assert forall|k: int| 0 <= k < n implies #[trigger] init[k] == routes[k] by {}
        if provider_routes(routes, provider) is Ok {
            assert forall|k: int| 0 <= k < routes.len() implies stripped(
                #[trigger] routes[k],
                provider,
            ) is Ok by {
                if k < n {
                    assert(init[k] == routes[k]);
                }
            }
        }
        if let Ok(list) = provider_routes(routes, provider) {
            assert(list =~= Seq::new(
                routes.len(),
                |k: int| stripped(routes[k], provider)->Ok_0,
            ));
        }
    } else {
        if let Ok(list) = provider_routes(routes, provider) {
            assert(list =~= Seq::new(
                routes.len(),
                |k: int| stripped(routes[k], provider)->Ok_0,
            ));
        }
    }
}

proof fn rows_of_routes_and_clusters(upstreams: Seq<UpstreamView>)
    ensures
        all_routes(contributions(upstreams)) is Ok <==> forall|i: int, k: int|
            0 <= i < upstreams.len() && 0 <= k < upstreams[i].file.routes.len() ==> stripped(
                #[trigger] upstreams[i].file.routes[k],
                upstreams[i].provider,
            ) is Ok,
        all_routes(contributions(upstreams)) matches Ok(routes) ==> routes == upstreams.map_values(
            |u: UpstreamView| own_routes(u),
        ).flatten(),
        all_clusters(contributions(upstreams)) == upstreams.map_values(
            |u: UpstreamView| u.file.clusters,
        ).flatten(),
    decreases upstreams.len(),
{
    let list = contributions(upstreams);
    let f = |u: UpstreamView| own_routes(u);
    let g = |u: UpstreamView| u.file.clusters;
    let (rows, groups) = (upstreams.map_values(f), upstreams.map_values(g));
    rows.lemma_flatten_and_flatten_alt_are_equivalent();
    groups.lemma_flatten_and_flatten_alt_are_equivalent();
    if upstreams.len() > 0 {
        let (init, last) = (upstreams.drop_last(), upstreams.last());
        let n = upstreams.len() - 1;
        rows_of_routes_and_clusters(init);
        assert(list.drop_last() =~= contributions(init));
        assert(rows.drop_last() =~= init.map_values(f));
        assert(groups.drop_last() =~= init.map_values(g));
        init.map_values(f).lemma_flatten_and_flatten_alt_are_equivalent();
        init.map_values(g).lemma_flatten_and_flatten_alt_are_equivalent();
        provider_routes_one_by_one(last.file.routes, last.provider);
        assert(upstreams[n] == last);
        assert forall|i: int| 0 <= i < n implies #[trigger] init[i] == upstreams[i] by {}
        if all_routes(list) is Ok {
            assert forall|i: int, k: int|
                0 <= i < upstreams.len() && 0 <= k < upstreams[i].file.routes.len() implies stripped(
                #[trigger] upstreams[i].file.routes[k],
                upstreams[i].provider,
            ) is Ok by {
                if i < n {
                    assert(init[i].file.routes[k] == upstreams[i].file.routes[k]);
                }
            }
            assert(rows.last() == own_routes(last));
        }
        if forall|i: int, k: int|
            0 <= i < upstreams.len() && 0 <= k < upstreams[i].file.routes.len() ==> stripped(
                #[trigger] upstreams[i].file.routes[k],
                upstreams[i].provider,
            ) is Ok {
            assert forall|i: int, k: int|
                0 <= i < init.len() && 0 <= k < init[i].file.routes.len() implies stripped(
                #[trigger] init[i].file.routes[k],
                init[i].provider,
            ) is Ok by {
                assert(upstreams[i].file.routes[k] == init[i].file.routes[k]);
            }
            assert forall|k: int| 0 <= k < last.file.routes.len() implies stripped(
                #[trigger] last.file.routes[k],
                last.provider,
            ) is Ok by {
                assert(upstreams[n].file.routes[k] == last.file.routes[k]);
            }
        }
    }
}

/// The routes that take the marker's place: each route of each upstream with the
/// internal headers, in the order of the upstreams and within each in the order of
/// its file. The clusters come in the same order, as they are.
pub proof fn routes_and_clusters_come_in_order(upstreams: Seq<UpstreamView>)
    ensures
        all_routes(contributions(upstreams)) matches Ok(routes) ==> routes == Seq::new(
            upstreams.len(),
            |i: int|
                Seq::new(
                    upstreams[i].file.routes.len(),
                    |k: int|
                        stripped(upstreams[i].file.routes[k], upstreams[i].provider)->Ok_0,
                ),
        ).flatten(),
        all_clusters(contributions(upstreams)) == Seq::new(
            upstreams.len(),
            |i: int| upstreams[i].file.clusters,
        ).flatten(),
        all_routes(contributions(upstreams)) is Ok <==> forall|i: int, k: int|
            0 <= i < upstreams.len() && 0 <= k < upstreams[i].file.routes.len() ==> stripped(
                #[trigger] upstreams[i].file.routes[k],
                upstreams[i].provider,
            ) is Ok,
{
    rows_of_routes_and_clusters(upstreams);
    let rows = Seq::new(
        upstreams.len(),
        |i: int|
            Seq::new(
                upstreams[i].file.routes.len(),
                |k: int| stripped(upstreams[i].file.routes[k], upstreams[i].provider)->Ok_0,
            ),
    );
    let groups = Seq::new(upstreams.len(), |i: int| upstreams[i].file.clusters);
    let now = upstreams.map_values(|u: UpstreamView| own_routes(u));
    assert forall|i: int| 0 <= i < rows.len() implies #[trigger] rows[i] == now[i] by {
        assert(rows[i] =~= own_routes(upstreams[i]));
    }
    assert(rows =~= now);
    assert(groups =~= upstreams.map_values(|u: UpstreamView| u.file.clusters));
}

/// There are as many routes and clusters to put in as the upstreams hold in all.
pub proof fn as_many_as_the_upstreams_hold(upstreams: Seq<UpstreamView>)
    ensures
        all_routes(contributions(upstreams)) matches Ok(routes) ==> routes.len()
            == upstreams.fold_left(0int, |n: int, u: UpstreamView| n + u.file.routes.len()),
        all_clusters(contributions(upstreams)).len() == upstreams.fold_left(
            0int,
            |n: int, u: UpstreamView| n + u.file.clusters.len(),
        ),
    decreases upstreams.len(),
{
    let list = contributions(upstreams);
    reveal(Seq::fold_left);
    if upstreams.len() > 0 {
        let (init, last) = (upstreams.drop_last(), upstreams.last());
        as_many_as_the_upstreams_hold(init);
        assert(list.drop_last() =~= contributions(init));
        if all_routes(list) is Ok {
            provider_routes_len(last.file.routes, last.provider);
        }
    }
}

/// The first route that cannot have the internal headers decides what an assembly
/// fails with.
pub proof fn first_bad_route_decides(
    base: Tree,
    upstreams: Seq<UpstreamView>,
    i: int,
    k: int,
    failure: Failure,
)
    requires
        0 <= i < upstreams.len(),
        0 <= k < upstreams[i].file.routes.len(),
        stripped(upstreams[i].file.routes[k], upstreams[i].provider) == Err::<Tree, Failure>(
            failure,
        ),
        forall|j: int, n: int|
            0 <= j < i && 0 <= n < upstreams[j].file.routes.len() ==> stripped(
                #[trigger] upstreams[j].file.routes[n],
                upstreams[j].provider,
            ) is Ok,
        forall|n: int|
            0 <= n < k ==> stripped(
                #[trigger] upstreams[i].file.routes[n],
                upstreams[i].provider,
            ) is Ok,
    ensures
        assembled(base, contributions(upstreams)) == Err::<Tree, Failure>(failure),
{
    let list = contributions(upstreams);
    let head = upstreams.take(i);
    let (routes, provider) = (upstreams[i].file.routes, upstreams[i].provider);
    assert forall|j: int, n: int|
        0 <= j < head.len() && 0 <= n < head[j].file.routes.len() implies stripped(
        #[trigger] head[j].file.routes[n],
        head[j].provider,
    ) is Ok by {
        assert(head[j].file.routes[n] == upstreams[j].file.routes[n]);
    }
    rows_of_routes_and_clusters(head);
    assert(list.take(i) =~= contributions(head));
    assert forall|n: int| 0 <= n < routes.take(k).len() implies stripped(
        #[trigger] routes.take(k)[n],
        provider,
    ) is Ok by {
        assert(routes.take(k)[n] == upstreams[i].file.routes[n]);
    }
    provider_routes_one_by_one(routes.take(k), provider);
    assert(routes.take(k + 1).drop_last() =~= routes.take(k));
    assert(routes.take(k + 1).last() == routes[k]);
    failed_routes_stay(routes, provider, k + 1);
    assert(list.take(i + 1).drop_last() =~= list.take(i));
    assert(list.take(i + 1).last() == list[i]);
    failed_contributions_stay(list, i + 1);
}

/// The list that held the marker of the routes holds, once assembled, what stood
/// before the marker, then every route of every upstream, then what stood behind it.
/// So it is with the clusters and their marker.
pub proof fn routes_and_clusters_take_the_places(
    base: Tree,
    upstreams: Seq<UpstreamView>,
    path: Seq<int>,
    at: int,
)
    requires
        assembled(base, contributions(upstreams)) is Ok,
        at_path(base, path) matches Some(Tree::Sequence(list)) && 0 <= at < list.len() && (list[at]
            == Tree::Text("gm:upstream-routes"@) || list[at] == Tree::Text(
            "gm:upstream-clusters"@,
        )),
    ensures
        ({
            let list = at_path(base, path)->0->Sequence_0;
            let routes = Seq::new(
                upstreams.len(),
                |i: int|
                    Seq::new(
                        upstreams[i].file.routes.len(),
                        |k: int|
                            stripped(upstreams[i].file.routes[k], upstreams[i].provider)->Ok_0,
                    ),
            ).flatten();
            let clusters = Seq::new(upstreams.len(), |i: int| upstreams[i].file.clusters).flatten();
            let fills = both("gm:upstream-routes"@, routes, "gm:upstream-clusters"@, clusters);
            let new = if list[at] == Tree::Text("gm:upstream-routes"@) {
                routes
            } else {
                clusters
            };
            exists|way: Seq<int>| #[trigger]
                at_path(assembled(base, contributions(upstreams))->Ok_0, way) == Some(
                    Tree::Sequence(
                        filled_items(list.take(at), fills) + new + filled_items(
                            list.skip(at + 1),
                            fills,
                        ),
                    ),
                )
        }),
{
    let all = contributions(upstreams);
    let list = at_path(base, path)->0->Sequence_0;
    routes_and_clusters_come_in_order(upstreams);
    markers_differ();
    let (routes, clusters) = (all_routes(all)->Ok_0, all_clusters(all));
    let fills = both(ROUTES_MARKER@, routes, CLUSTERS_MARKER@, clusters);
    let new = if list[at] == Tree::Text(ROUTES_MARKER@) {
        routes
    } else {
        clusters
    };
    parts_are_kept(base, path, fills);
    items_between(list, at, fills, new);
    assert(at_path(assembled(base, all)->Ok_0, moved(base, path, fills)) == Some(
        Tree::Sequence(
            filled_items(list.take(at), fills) + new + filled_items(list.skip(at + 1), fills),
        ),
    ));
}

/// Every route of every upstream, with the internal headers, stands in the assembled
/// tree, and so does every cluster, as it is.
pub proof fn each_route_and_cluster_stands_in_the_tree(
    base: Tree,
    upstreams: Seq<UpstreamView>,
    i: int,
    k: int,
)
    requires
        assembled(base, contributions(upstreams)) is Ok,
        0 <= i < upstreams.len(),
    ensures
        0 <= k < upstreams[i].file.routes.len() ==> {
            let route = stripped(upstreams[i].file.routes[k], upstreams[i].provider);
            &&& route is Ok
            &&& exists|path: Seq<int>| #[trigger]
                at_path(assembled(base, contributions(upstreams))->Ok_0, path) == Some(
                    route->Ok_0,
                )
        },
        0 <= k < upstreams[i].file.clusters.len() ==> exists|path: Seq<int>| #[trigger]
            at_path(assembled(base, contributions(upstreams))->Ok_0, path) == Some(
                upstreams[i].file.clusters[k],
            ),
{
    let all = contributions(upstreams);
    let now = assembled(base, all)->Ok_0;
    routes_and_clusters_stand_in_a_row(base, all);
    rows_of_routes_and_clusters(upstreams);
    let rows = upstreams.map_values(|u: UpstreamView| own_routes(u));
    let groups = upstreams.map_values(|u: UpstreamView| u.file.clusters);
    if 0 <= k < upstreams[i].file.routes.len() {
        let routes = all_routes(all)->Ok_0;
        let at = place_in_flat(rows, i, k);
        assert(upstreams[i].file.routes[k] == upstreams[i].file.routes[k]);
        let (path, start) = choose|path: Seq<int>, start: int| #[trigger]
            row_at(now, path, start, routes);
        let row = at_path(now, path)->0->Sequence_0;
        assert(row.subrange(start, start + routes.len())[at] == row[start + at]);
        step_down(now, path, start + at);
        assert(at_path(now, path.push(start + at)) == Some(rows[i][k]));
    }
    if 0 <= k < upstreams[i].file.clusters.len() {
        let clusters = all_clusters(all);
        let at = place_in_flat(groups, i, k);
        let (path, start) = choose|path: Seq<int>, start: int| #[trigger]
            row_at(now, path, start, clusters);
        let row = at_path(now, path)->0->Sequence_0;
        assert(row.subrange(start, start + clusters.len())[at] == row[start + at]);
        step_down(now, path, start + at);
        assert(at_path(now, path.push(start + at)) == Some(groups[i][k]));
    }
}

/// Where the `k`-th part of the `i`-th row stands once the rows are put one behind
/// the other.
proof fn place_in_flat(rows: Seq<Seq<Tree>>, i: int, k: int) -> (at: int)
    requires
        0 <= i < rows.len(),
        0 <= k < rows[i].len(),
    ensures
        0 <= at < rows.flatten().len(),
        rows.flatten()[at] == rows[i][k],
    decreases rows.len(),
{
    let first = rows.first();
    let rest = rows.drop_first();
    assert(rows.flatten() == first + rest.flatten());
    if i == 0 {
        k
    } else {
        assert(rest[i - 1] == rows[i]);
        let at = place_in_flat(rest, i - 1, k);
        first.len() + at
    }
}

/// In the base file, one variable stands for the Lua table, and every other for what
/// the lookup says.
pub proof fn one_variable_is_the_table(
    answers: Answers,
    can: Possible,
    config: Seq<char>,
    name: Seq<char>,
    value: Option<Seq<char>>,
)
    ensures
        with_slot_config(answers, config)("GM_SLOT_CONFIG"@) == Some(config),
        name != "GM_SLOT_CONFIG"@ ==> with_slot_config(answers, config)(name) == answers(name),
        with_config(can, config)("GM_SLOT_CONFIG"@, value) <==> value == Some(config),
        name != "GM_SLOT_CONFIG"@ ==> with_config(can, config)(name, value) == can(name, value),
{
}

/// What the base file is read as: the YAML of its text with the values in place of
/// its tokens. Else the failure is that of the first step that fails.
pub proof fn base_is_read_in_steps(base: FileView, answers: Answers, tree: Tree)
    ensures
        parsed_base(base, answers) == Ok::<Tree, Failure>(tree) <==> {
            &&& base.text is Ok
            &&& expanded(base.text->Ok_0, answers) is Ok
            &&& yaml_tree(expanded(base.text->Ok_0, answers)->Ok_0) == Ok::<Tree, Seq<char>>(tree)
        },
        base.text matches Err(cause) ==> parsed_base(base, answers) == Err::<Tree, Failure>(
            Failure::ReadBase { path: base.path, cause },
        ),
        base.text matches Ok(text) ==> {
            &&& expanded(text, answers) matches Err(name) ==> parsed_base(base, answers) == Err::<
                Tree,
                Failure,
            >(Failure::Unset { path: base.path, name })
            &&& expanded(text, answers) matches Ok(t) ==> (yaml_tree(t) matches Err(cause)
                ==> parsed_base(base, answers) == Err::<Tree, Failure>(
                Failure::Parse { path: base.path, cause },
            ))
        },
{
}

/// What the base file can be read as: the YAML of what its text can become, or a
/// failure of one of the steps to it.
pub proof fn possible_base(base: FileView, can: Possible, tree: Tree, failure: Failure)
    ensures
        may_parse(base, can, Ok(tree)) ==> exists|t: Seq<char>|
            {
                &&& base.text is Ok
                &&& #[trigger] may_become(base.text->Ok_0, can, Ok(t))
                &&& yaml_tree(t) == Ok::<Tree, Seq<char>>(tree)
            },
        may_parse(base, can, Err(failure)) ==> match failure {
            Failure::ReadBase { path, cause } => {
                &&& path == base.path
                &&& base.text == Err::<Seq<char>, Seq<char>>(cause)
            },
            Failure::Unset { path, name } => {
                &&& path == base.path
                &&& base.text is Ok
                &&& may_become(base.text->Ok_0, can, Err(name))
            },
            Failure::Parse { path, cause } => {
                &&& path == base.path
                &&& base.text is Ok
                &&& exists|t: Seq<char>| #[trigger]
                    may_become(base.text->Ok_0, can, Ok(t)) && yaml_tree(t) == Err::<
                        Tree,
                        Seq<char>,
                    >(cause)
            },
            _ => false,
        },
{
    if let Ok(text) = base.text {
        if may_parse(base, can, Ok(tree)) {
            let result = choose|result: Result<Seq<char>, Seq<char>>| #[trigger]
                may_become(text, can, result) && Ok::<Tree, Failure>(tree) == parsed_as(
                    result,
                    base.path,
                );
            assert(may_become(text, can, Ok(result->Ok_0)));
        }
        if may_parse(base, can, Err(failure)) {
            let result = choose|result: Result<Seq<char>, Seq<char>>| #[trigger]
                may_become(text, can, result) && Err::<Tree, Failure>(failure) == parsed_as(
                    result,
                    base.path,
                );
            match result {
                Ok(t) => {
                    assert(may_become(text, can, Ok(t)));
                },
                Err(name) => {
                    assert(may_become(text, can, Err(name)));
                },
            }
        }
    }
}

/// When a configuration comes out: the upstreams can be loaded, the base can be read
/// with their Lua table in it, it can be assembled, and the whole has a JSON form,
/// which is the configuration.
pub proof fn render_succeeds_in_steps(
    base: FileView,
    files: Seq<FileView>,
    selections: Seq<(Seq<char>, Seq<char>)>,
    answers: Answers,
    reader: Reader,
    text: Seq<char>,
)
    ensures
        rendered(base, files, selections, answers, reader) == Ok::<Seq<char>, Failure>(text) <==> {
            let load = loaded(files, selections, reads_by(answers, reader));
            let ups = load->Ok_0;
            let config = slot_config(
                ups,
                Seq::new(
                    ups.len(),
                    |i: int| answers("GM_"@ + upper(ups[i].provider) + "_SLOT_IDS"@),
                ),
            );
            let parsed = parsed_base(
                base,
                |name: Seq<char>|
                    if name == "GM_SLOT_CONFIG"@ {
                        Some(config)
                    } else {
                        answers(name)
                    },
            );
            let tree = assembled(parsed->Ok_0, contributions(ups));
            &&& load is Ok
            &&& parsed is Ok
            &&& tree is Ok
            &&& json_text(tree->Ok_0) == Ok::<Seq<char>, Seq<char>>(text)
        },
{
    let load = loaded(files, selections, reads_by(answers, reader));
    if let Ok(ups) = load {
        let lists = Seq::new(
            ups.len(),
            |i: int| answers("GM_"@ + upper(ups[i].provider) + "_SLOT_IDS"@),
        );
        assert(lists =~= lists_by(ups, answers));
        let config = slot_config(ups, lists);
        let given = |name: Seq<char>|
            if name == "GM_SLOT_CONFIG"@ {
                Some(config)
            } else {
                answers(name)
            };
        assert(given =~= with_slot_config(answers, config));
    }
}

/// What a render fails with is the failure of its first step that fails: the load,
/// the base, the assembly, and last the JSON form.
pub proof fn render_fails_with_the_first_failure(
    base: FileView,
    files: Seq<FileView>,
    selections: Seq<(Seq<char>, Seq<char>)>,
    answers: Answers,
    reader: Reader,
)
    ensures
        ({
            let result = rendered(base, files, selections, answers, reader);
            let load = loaded(files, selections, reads_by(answers, reader));
            &&& load matches Err(failure) ==> result == Err::<Seq<char>, Failure>(failure)
            &&& load matches Ok(ups) ==> {
                let parsed = parsed_base(
                    base,
                    with_slot_config(answers, slot_config(ups, lists_by(ups, answers))),
                );
                &&& parsed matches Err(failure) ==> result == Err::<Seq<char>, Failure>(failure)
                &&& parsed matches Ok(tree) ==> {
                    let whole = assembled(tree, contributions(ups));
                    &&& whole matches Err(failure) ==> result == Err::<Seq<char>, Failure>(failure)
                    &&& whole matches Ok(tree) ==> (json_text(tree) matches Err(cause) ==> result
                        == Err::<Seq<char>, Failure>(Failure::Serialize { cause }))
                }
            }
        }),
{
}

/// A configuration holds all that the upstreams hold: it is the JSON form of a tree in
/// which every route of every upstream that was loaded stands, with the internal
/// headers, and every cluster.
pub proof fn configuration_holds_every_route_and_cluster(
    base: FileView,
    files: Seq<FileView>,
    selections: Seq<(Seq<char>, Seq<char>)>,
    answers: Answers,
    reader: Reader,
)
    requires
        rendered(base, files, selections, answers, reader) is Ok,
    ensures
        exists|tree: Tree|
            {
                let ups = loaded(files, selections, reads_by(answers, reader))->Ok_0;
                &&& #[trigger] json_text(tree) == Ok::<Seq<char>, Seq<char>>(
                    rendered(base, files, selections, answers, reader)->Ok_0,
                )
                &&& loaded(files, selections, reads_by(answers, reader)) is Ok
                &&& forall|i: int, k: int|
                    0 <= i < ups.len() && 0 <= k < ups[i].file.routes.len() ==> {
                        let route = stripped(
                            #[trigger] ups[i].file.routes[k],
                            ups[i].provider,
                        );
                        route is Ok && stands_in(tree, route->Ok_0)
                    }
                &&& forall|i: int, k: int|
                    0 <= i < ups.len() && 0 <= k < ups[i].file.clusters.len() ==> stands_in(
                        tree,
                        #[trigger] ups[i].file.clusters[k],
                    )
            },
{
    let ups = loaded(files, selections, reads_by(answers, reader))->Ok_0;
    let config = slot_config(ups, lists_by(ups, answers));
    let tree = parsed_base(base, with_slot_config(answers, config))->Ok_0;
    let whole = assembled(tree, contributions(ups))->Ok_0;
    assert forall|i: int, k: int| 0 <= i < ups.len() && 0 <= k < ups[i].file.routes.len() implies {
        let route = stripped(#[trigger] ups[i].file.routes[k], ups[i].provider);
        route is Ok && stands_in(whole, route->Ok_0)
    } by {
        each_route_and_cluster_stands_in_the_tree(tree, ups, i, k);
    }
    assert forall|i: int, k: int|
        0 <= i < ups.len() && 0 <= k < ups[i].file.clusters.len() implies stands_in(
        whole,
        #[trigger] ups[i].file.clusters[k],
    ) by {
        each_route_and_cluster_stands_in_the_tree(tree, ups, i, k);
    }
    assert(json_text(whole) == Ok::<Seq<char>, Seq<char>>(
        rendered(base, files, selections, answers, reader)->Ok_0,
    ));
}

/// `part` stands somewhere in the tree.
pub open spec fn stands_in(tree: Tree, part: Tree) -> bool {
    exists|path: Seq<int>| #[trigger] at_path(tree, path) == Some(part)
}

/// Whatever a fickle lookup or reader says, a configuration is the JSON form of a base
/// that was read with the Lua table of the upstreams that were loaded, assembled with
/// all that they hold.
pub proof fn possible_render(
    base: FileView,
    files: Seq<FileView>,
    selections: Seq<(Seq<char>, Seq<char>)>,
    can: Possible,
    can_read: Readings,
    text: Seq<char>,
)
    requires
        may_render(base, files, selections, can, can_read, Ok(text)),
    ensures
        exists|ups: Seq<UpstreamView>, lists: Seq<Option<Seq<char>>>, tree: Tree|
            {
                &&& may_load(files, selections, can, can_read, Ok(ups))
                &&& #[trigger] lists_possible(ups, can, lists)
                &&& #[trigger] may_parse(
                    base,
                    with_config(can, slot_config(ups, lists)),
                    Ok(tree),
                )
                &&& assembled(tree, contributions(ups)) is Ok
                &&& json_text(assembled(tree, contributions(ups))->Ok_0) == Ok::<
                    Seq<char>,
                    Seq<char>,
                >(text)
            },
{
    let result = Ok::<Seq<char>, Failure>(text);
    let found = choose|found: Result<Seq<UpstreamView>, Failure>| #[trigger]
        may_load(files, selections, can, can_read, found) && match found {
            Err(failure) => result == Err::<Seq<char>, Failure>(failure),
            Ok(upstreams) => may_finish(base, can, upstreams, result),
        };
    let ups = found->Ok_0;
    let lists = choose|lists: Seq<Option<Seq<char>>>| #[trigger]
        lists_possible(ups, can, lists) && may_write(
            base,
            with_config(can, slot_config(ups, lists)),
            ups,
            result,
        );
    let given = with_config(can, slot_config(ups, lists));
    let parsed = choose|parsed: Result<Tree, Failure>| #[trigger]
        may_parse(base, given, parsed) && result == written(parsed, ups);
    let tree = parsed->Ok_0;
    assert(may_parse(base, with_config(can, slot_config(ups, lists)), Ok(tree)));
}

/// Which variables a render can ask for, and no others: those that the tokens of a
/// wanted file name, those that the tokens of the base name but for the one that
/// stands for the Lua table, and those that list the slot ids of a provider whose file
/// can be read as one with slots.
pub proof fn variables_of_a_render(
    base: FileView,
    files: Seq<FileView>,
    selections: Seq<(Seq<char>, Seq<char>)>,
    can: Possible,
    can_read: Readings,
    name: Seq<char>,
)
    ensures
        asked_by_render(base, files, selections, can, can_read)(name) <==> {
            ||| exists|k: int|
                {
                    &&& 0 <= k < files.len()
                    &&& wanted((#[trigger] files[k]).name, selections)
                    &&& files[k].text is Ok
                    &&& names(files[k].text->Ok_0).contains(name)
                }
            ||| base.text is Ok && names(base.text->Ok_0).contains(name) && name
                != "GM_SLOT_CONFIG"@
            ||| exists|k: int, found: UpstreamFileView|
                {
                    &&& 0 <= k < files.len()
                    &&& wanted((#[trigger] files[k]).name, selections)
                    &&& name == "GM_"@ + upper(names_of(files[k]).0) + "_SLOT_IDS"@
                    &&& may_be_read_as(files[k], can, can_read, Ok(found))
                    &&& (#[trigger] found.slots) is Some
                }
        },
{
    if asked_by_files(files, selections)(name) {
        let k = choose|k: int|
            0 <= k < files.len() && asked_by(#[trigger] files[k], selections)(name);
        assert(wanted(files[k].name, selections));
    }
    if exists|k: int|
        {
            &&& 0 <= k < files.len()
            &&& wanted((#[trigger] files[k]).name, selections)
            &&& files[k].text is Ok
            &&& names(files[k].text->Ok_0).contains(name)
        } {
        let k = choose|k: int|
            {
                &&& 0 <= k < files.len()
                &&& wanted((#[trigger] files[k]).name, selections)
                &&& files[k].text is Ok
                &&& names(files[k].text->Ok_0).contains(name)
            };
        assert(asked_by(files[k], selections)(name));
    }
}

/// How a base without a marker, or with several of one, is refused: with the marker,
/// that of the routes first, and with how often it is there.
pub proof fn marker_count_is_told(base: Tree, upstreams: Seq<UpstreamView>)
    requires
        all_routes(contributions(upstreams)) is Ok,
        occurrences(base, "gm:upstream-routes"@) <= usize::MAX,
        occurrences(base, "gm:upstream-clusters"@) <= usize::MAX,
    ensures
        ({
            let result = assembled(base, contributions(upstreams));
            let routes = occurrences(base, "gm:upstream-routes"@);
            let clusters = occurrences(base, "gm:upstream-clusters"@);
            &&& result is Ok <==> routes == 1 && clusters == 1
            &&& routes != 1 ==> result == Err::<Tree, Failure>(
                Failure::MarkerCount { marker: "gm:upstream-routes"@, found: routes },
            )
            &&& routes == 1 && clusters != 1 ==> result == Err::<Tree, Failure>(
                Failure::MarkerCount { marker: "gm:upstream-clusters"@, found: clusters },
            )
        }),
{
}

/// Which variables the base file asks for: those that its tokens name.
pub proof fn variables_of_the_base(base: FileView, name: Seq<char>)
    ensures
        asked_by_base(base)(name) <==> base.text is Ok && names(base.text->Ok_0).contains(name),
{
}

/// Whatever a fickle lookup or reader says, a render fails with what the load fails
/// with, what reading the base fails with, what the assembly fails with, or for want
/// of a JSON form.
pub proof fn possible_render_failure(
    base: FileView,
    files: Seq<FileView>,
    selections: Seq<(Seq<char>, Seq<char>)>,
    can: Possible,
    can_read: Readings,
    failure: Failure,
)
    requires
        may_render(base, files, selections, can, can_read, Err(failure)),
    ensures
        may_load(files, selections, can, can_read, Err(failure)) || exists|
            ups: Seq<UpstreamView>,
            lists: Seq<Option<Seq<char>>>,
            parsed: Result<Tree, Failure>,
        |
            {
                &&& may_load(files, selections, can, can_read, Ok(ups))
                &&& #[trigger] lists_possible(ups, can, lists)
                &&& #[trigger] may_parse(
                    base,
                    with_config(can, slot_config(ups, lists)),
                    parsed,
                )
                &&& parsed is Err ==> parsed->Err_0 == failure
                &&& parsed matches Ok(tree) ==> match assembled(tree, contributions(ups)) {
                    Err(e) => e == failure,
                    Ok(whole) => json_text(whole) is Err && failure == (Failure::Serialize {
                        cause: json_text(whole)->Err_0,
                    }),
                }
            },
{
    let result = Err::<Seq<char>, Failure>(failure);
    let found = choose|found: Result<Seq<UpstreamView>, Failure>| #[trigger]
        may_load(files, selections, can, can_read, found) && match found {
            Err(e) => result == Err::<Seq<char>, Failure>(e),
            Ok(upstreams) => may_finish(base, can, upstreams, result),
        };
    if let Ok(ups) = found {
        let lists = choose|lists: Seq<Option<Seq<char>>>| #[trigger]
            lists_possible(ups, can, lists) && may_write(
                base,
                with_config(can, slot_config(ups, lists)),
                ups,
                result,
            );
        let given = with_config(can, slot_config(ups, lists));
        let parsed = choose|parsed: Result<Tree, Failure>| #[trigger]
            may_parse(base, given, parsed) && result == written(parsed, ups);
        assert(may_parse(base, with_config(can, slot_config(ups, lists)), parsed));
    }
}

} // verus!
