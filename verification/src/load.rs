//! Reading the upstream files.

use vstd::prelude::*;
use vstd::utf8::*;

use crate::error::{Failure, RenderError};
use crate::files::{
    by_name, file_views, in_order, names_distinct, provider_and_variant, ref_views,
    same_files_same_list, sort_by_name, sorted_names_are_distinct, sorting_orders_the_files,
    split_stem, stem, stem_is_provider_dot_variant, stem_stands_before_yaml, stem_text, wanted,
    FileView, TemplateFile,
};
use crate::selection::{
    check_passes_when_complete, check_selections, checked, chosen, chosen_is_listed,
    each_pair_decides_for_its_provider, failed_check_tells_the_first, pairs, selected_variant,
};
use crate::text::{bytes_before, texts};
use crate::tokens::{
    looks_up, may_ask, may_become, names, names_in, possible, steady_lookup_decides, substitute,
    substituted, text_result, told, Answers, Names, Possible,
};
use crate::upstream::{
    upstream_views, SlotsView, Upstream, UpstreamFile, UpstreamFileView, UpstreamView,
};

verus! {

/// What a reader of upstream files makes of a text: the file, or what is wrong
/// with the text.
pub type Reader = spec_fn(Seq<char>) -> Result<UpstreamFileView, Seq<char>>;

/// The view of what a reader of upstream files returns.
pub open spec fn read_view(r: Result<UpstreamFile, String>) -> Result<UpstreamFileView, Seq<char>> {
    match r {
        Ok(file) => Ok(file@),
        Err(cause) => Err(cause@),
    }
}

/// A set of texts.
pub type Texts = spec_fn(Seq<char>) -> bool;

/// Whatever `parse` returns for one of the texts in `given` is what `reader` says
/// of it.
pub open spec fn reads_as<P: Fn(&str) -> Result<UpstreamFile, String>>(
    parse: P,
    reader: Reader,
    given: Texts,
) -> bool {
    forall|text: &str, file: Result<UpstreamFile, String>| #[trigger]
        call_ensures(parse, (text,), file) && given(text@) ==> read_view(file) == reader(text@)
}

/// `parse` can be given the texts in `given`. It is given no other text where this
/// is all that is required.
pub open spec fn may_give<P: Fn(&str) -> Result<UpstreamFile, String>>(
    parse: P,
    given: Texts,
) -> bool {
    forall|text: &str| given(text@) ==> #[trigger] call_requires(parse, (text,))
}

/// What a text can be read as. A reader may read a text differently each time.
pub type Readings = spec_fn(Seq<char>, Result<UpstreamFileView, Seq<char>>) -> bool;

/// What `parse` can read a text as.
pub open spec fn readings<P: Fn(&str) -> Result<UpstreamFile, String>>(parse: P) -> Readings {
    |text: Seq<char>, read: Result<UpstreamFileView, Seq<char>>|
        exists|given: &str, file: Result<UpstreamFile, String>| #[trigger]
            call_ensures(parse, (given,), file) && given@ == text && read_view(file) == read
}

/// The names that the tokens of a file hold, where the file is wanted.
pub open spec fn asked_by(file: FileView, selections: Seq<(Seq<char>, Seq<char>)>) -> Names {
    |name: Seq<char>|
        {
            &&& wanted(file.name, selections)
            &&& file.text matches Ok(text) && names(text).contains(name)
        }
}

/// What the text of a file can become with possible answers in place of its
/// tokens, where the file is wanted.
pub open spec fn given_by(
    file: FileView,
    selections: Seq<(Seq<char>, Seq<char>)>,
    can: Possible,
) -> Texts {
    |given: Seq<char>|
        {
            &&& wanted(file.name, selections)
            &&& file.text matches Ok(text) && may_become(text, can, Ok(given))
        }
}

/// The names that the tokens of the wanted files hold.
pub open spec fn asked_by_files(
    files: Seq<FileView>,
    selections: Seq<(Seq<char>, Seq<char>)>,
) -> Names {
    |name: Seq<char>|
        exists|k: int| 0 <= k < files.len() && asked_by(#[trigger] files[k], selections)(name)
}

/// What the texts of the wanted files can become with possible answers in place
/// of their tokens.
pub open spec fn given_by_files(
    files: Seq<FileView>,
    selections: Seq<(Seq<char>, Seq<char>)>,
    can: Possible,
) -> Texts {
    |given: Seq<char>|
        exists|k: int|
            0 <= k < files.len() && given_by(#[trigger] files[k], selections, can)(given)
}

/// The providers with variant files so far, those of them whose selection was
/// found, and the upstreams.
pub struct Progress {
    pub variant_providers: Seq<Seq<char>>,
    pub selected: Seq<Seq<char>>,
    pub upstreams: Seq<UpstreamView>,
}

/// One of the upstreams is of `provider`.
pub open spec fn has_provider(upstreams: Seq<UpstreamView>, provider: Seq<char>) -> bool {
    exists|i: int| 0 <= i < upstreams.len() && (#[trigger] upstreams[i]).provider == provider
}

/// The slots of a direct upstream name a header for the key.
pub open spec fn slots_complete(file: UpstreamFileView) -> bool {
    file.slots matches Some(slots) ==> slots.cloud || slots.disabled || slots.auth_header is Some
}

/// What becomes of an upstream's file, at `path`, that was read as `read`.
pub open spec fn checked_upstream(
    read: Result<UpstreamFileView, Seq<char>>,
    path: Seq<char>,
) -> Result<UpstreamFileView, Failure> {
    match read {
        Err(cause) => Err(Failure::Parse { path, cause }),
        Ok(file) => if slots_complete(file) {
            Ok(file)
        } else {
            Err(Failure::NoAuthHeader { path })
        },
    }
}

/// What the text of an upstream's file, at `path`, is read as.
pub open spec fn upstream_file(
    text: Result<Seq<char>, Seq<char>>,
    path: Seq<char>,
    answers: Answers,
    reader: Reader,
) -> Result<UpstreamFileView, Failure> {
    match text {
        Err(cause) => Err(Failure::ReadUpstream { cause }),
        Ok(text) => match substituted(text, answers, path) {
            Err(failure) => Err(failure),
            Ok(text) => checked_upstream(reader(text), path),
        },
    }
}

/// What a file can be read as.
pub open spec fn may_be_read_as(
    file: FileView,
    can: Possible,
    can_read: Readings,
    found: Result<UpstreamFileView, Failure>,
) -> bool {
    match file.text {
        Err(cause) => found == Err::<UpstreamFileView, Failure>(Failure::ReadUpstream { cause }),
        Ok(text) => exists|result: Result<Seq<char>, Seq<char>>| #[trigger]
            may_become(text, can, result) && match result {
                Err(name) => found == Err::<UpstreamFileView, Failure>(
                    Failure::Unset { path: file.path, name },
                ),
                Ok(t) => exists|read: Result<UpstreamFileView, Seq<char>>| #[trigger]
                    can_read(t, read) && found == checked_upstream(read, file.path),
            },
    }
}

/// What each file is read as.
pub type Reads = spec_fn(FileView) -> Result<UpstreamFileView, Failure>;

/// What each file is read as where each name has one answer, and each text one reading.
pub open spec fn reads_by(answers: Answers, reader: Reader) -> Reads {
    |file: FileView| upstream_file(file.text, file.path, answers, reader)
}

/// `progress` after one more file, which is read as `found` where it is read.
pub open spec fn after_file(
    progress: Progress,
    file: FileView,
    selections: Seq<(Seq<char>, Seq<char>)>,
    found: Result<UpstreamFileView, Failure>,
) -> Result<Progress, Failure> {
    match stem(file.name) {
        None => Ok(progress),
        Some(bytes) => if !valid_utf8(bytes) {
            Err(Failure::NameNotUtf8 { path: file.path })
        } else {
            let (provider, variant) = provider_and_variant(decode_utf8(bytes));
            let skipped = variant is Some && chosen(selections, provider) != variant;
            let variant_providers = if variant is Some {
                progress.variant_providers.push(provider)
            } else {
                progress.variant_providers
            };
            if skipped {
                Ok(Progress { variant_providers, ..progress })
            } else if has_provider(progress.upstreams, provider) {
                Err(Failure::SeveralFiles { provider })
            } else {
                match found {
                    Err(failure) => Err(failure),
                    Ok(found) => Ok(
                        Progress {
                            variant_providers,
                            selected: if variant is Some {
                                progress.selected.push(provider)
                            } else {
                                progress.selected
                            },
                            upstreams: progress.upstreams.push(
                                UpstreamView { provider, file: found },
                            ),
                        },
                    ),
                }
            }
        },
    }
}

/// The progress after all files, one after the other.
pub open spec fn after_files(
    files: Seq<FileView>,
    selections: Seq<(Seq<char>, Seq<char>)>,
    reads: Reads,
) -> Result<Progress, Failure>
    decreases files.len(),
{
    if files.len() == 0 {
        Ok(
            Progress {
                variant_providers: Seq::empty(),
                selected: Seq::empty(),
                upstreams: Seq::empty(),
            },
        )
    } else {
        match after_files(files.drop_last(), selections, reads) {
            Err(failure) => Err(failure),
            Ok(progress) => after_file(progress, files.last(), selections, reads(files.last())),
        }
    }
}

/// What [`load_upstreams`] makes of the files of the upstream directory, which
/// it takes in the order of their names and reads as `reads` says.
pub open spec fn loaded(
    files: Seq<FileView>,
    selections: Seq<(Seq<char>, Seq<char>)>,
    reads: Reads,
) -> Result<Seq<UpstreamView>, Failure> {
    match after_files(by_name(files), selections, reads) {
        Err(failure) => Err(failure),
        Ok(progress) => match checked(
            selections,
            progress.variant_providers,
            progress.selected,
        ) {
            Err(failure) => Err(failure),
            Ok(_) => Ok(progress.upstreams),
        },
    }
}

/// A file is read where it is wanted and its provider has no upstream yet.
pub open spec fn reads_file(
    progress: Progress,
    file: FileView,
    selections: Seq<(Seq<char>, Seq<char>)>,
) -> bool {
    wanted(file.name, selections) && !has_provider(progress.upstreams, names_of(file).0)
}

/// The file at `k` is read: none of those before it failed, and it is one to read.
pub open spec fn is_read(
    files: Seq<FileView>,
    selections: Seq<(Seq<char>, Seq<char>)>,
    reads: Reads,
    k: int,
) -> bool {
    after_files(files.take(k), selections, reads) matches Ok(progress) && reads_file(
        progress,
        files[k],
        selections,
    )
}

/// What the first `n` files are read as, as far as they are read, is what they can
/// be read as.
pub open spec fn reads_possible(
    files: Seq<FileView>,
    n: int,
    selections: Seq<(Seq<char>, Seq<char>)>,
    can: Possible,
    can_read: Readings,
    reads: Reads,
) -> bool {
    forall|k: int|
        0 <= k < n && is_read(files, selections, reads, k) ==> may_be_read_as(
            #[trigger] files[k],
            can,
            can_read,
            reads(files[k]),
        )
}

/// What the files of the upstream directory can be loaded as.
pub open spec fn may_load(
    files: Seq<FileView>,
    selections: Seq<(Seq<char>, Seq<char>)>,
    can: Possible,
    can_read: Readings,
    result: Result<Seq<UpstreamView>, Failure>,
) -> bool {
    exists|reads: Reads|
        {
            &&& reads_possible(
                by_name(files),
                files.len() as int,
                selections,
                can,
                can_read,
                reads,
            )
            &&& result == #[trigger] loaded(files, selections, reads)
        }
}

/// The providers of the upstreams.
pub open spec fn providers(upstreams: Seq<UpstreamView>) -> Seq<Seq<char>> {
    Seq::new(upstreams.len(), |i: int| upstreams[i].provider)
}

/// The providers of the wanted files.
pub open spec fn wanted_providers(
    files: Seq<FileView>,
    selections: Seq<(Seq<char>, Seq<char>)>,
) -> Seq<Seq<char>>
    decreases files.len(),
{
    if files.len() == 0 {
        Seq::empty()
    } else if wanted(files.last().name, selections) {
        wanted_providers(files.drop_last(), selections).push(names_of(files.last()).0)
    } else {
        wanted_providers(files.drop_last(), selections)
    }
}

/// A plain file and a variant file are of one provider.
pub open spec fn is_mixed(files: Seq<FileView>) -> bool {
    exists|plain: FileView, variant: FileView| #[trigger]
        files.contains(plain) && #[trigger] files.contains(variant) && {
            &&& stem(plain.name) is Some && names_of(plain).1 is None
            &&& stem(variant.name) is Some && names_of(variant).1 is Some
            &&& names_of(plain).0 == names_of(variant).0
        }
}

/// The view of upstreams or a failure.
pub open spec fn upstreams_result(r: Result<Vec<Upstream>, RenderError>) -> Result<
    Seq<UpstreamView>,
    Failure,
> {
    match r {
        Ok(upstreams) => Ok(upstream_views(upstreams@)),
        Err(e) => Err(e@),
    }
}

/// Whether one of the upstreams is of `provider`.
fn is_taken(upstreams: &Vec<Upstream>, provider: &String) -> (r: bool)
    ensures
        r == has_provider(upstream_views(upstreams@), provider@),
{
    let ghost all = upstream_views(upstreams@);
    let mut i: usize = 0;
    while i < upstreams.len()
        invariant
            i <= upstreams@.len(),
            all == upstream_views(upstreams@),
            forall|j: int| 0 <= j < i ==> (#[trigger] all[j]).provider != provider@,
        decreases upstreams@.len() - i,
    {
        if upstreams[i].provider == *provider {
            assert(all[i as int].provider == provider@);
            return true;
        }
        i += 1;
    }
    false
}

/// Whether the slots of a direct upstream name a header for the key.
fn has_auth(file: &UpstreamFile) -> (r: bool)
    ensures
        r == slots_complete(file@),
{
    match &file.slots {
        Some(slots) => slots.cloud || slots.disabled || slots.auth_header.is_some(),
        None => true,
    }
}

/// The view of an upstream's file or a failure.
pub open spec fn file_result(r: Result<UpstreamFile, RenderError>) -> Result<
    UpstreamFileView,
    Failure,
> {
    match r {
        Ok(file) => Ok(file@),
        Err(e) => Err(e@),
    }
}

/// Checks what an upstream's file, at `path`, was read as.
///
/// # Errors
/// Returns [`RenderError::Parse`] where the text was refused, and
/// [`RenderError::NoAuthHeader`] where the slots are those of a direct upstream
/// and name no header for the key.
pub fn check_upstream(read: Result<UpstreamFile, String>, path: &String) -> (r: Result<
    UpstreamFile,
    RenderError,
>)
    ensures
        file_result(r) == checked_upstream(read_view(read), path@),
{
    match read {
        Ok(file) => if has_auth(&file) {
            Ok(file)
        } else {
            Err(RenderError::NoAuthHeader { path: path.clone() })
        },
        Err(cause) => Err(RenderError::Parse { path: path.clone(), cause }),
    }
}

/// Reads the text of an upstream's file.
fn read_upstream<E: Fn(&str) -> Option<String>, P: Fn(&str) -> Result<UpstreamFile, String>>(
    file: &TemplateFile,
    env: &E,
    parse: &P,
    Ghost(selections): Ghost<Seq<(Seq<char>, Seq<char>)>>,
) -> (r: Result<UpstreamFile, RenderError>)
    requires
        wanted(file.name@, selections),
        may_ask(*env, asked_by(file@, selections)),
        may_give(*parse, given_by(file@, selections, possible(*env))),
    ensures
        may_be_read_as(file@, possible(*env), readings(*parse), file_result(r)),
{
    let text = match &file.text {
        Ok(text) => text,
        Err(cause) => {
            return Err(RenderError::ReadUpstream { cause: cause.clone() });
        },
    };
    let ghost can = possible(*env);
    assert(file@.text == Ok::<Seq<char>, Seq<char>>(text@));
    proof {
        assert forall|name: &str| names_in(text@)(name@) implies #[trigger] call_requires(
            *env,
            (name,),
        ) by {
            assert(asked_by(file@, selections)(name@));
        }
    }
    let became = substitute(text, env, &file.path);
    let ghost result = choose|result: Result<Seq<char>, Seq<char>>| #[trigger]
        may_become(text@, can, result) && text_result(became) == told(result, file.path@);
    match became {
        Ok(text) => {
            assert(given_by(file@, selections, can)(text@));
            let read = parse(&text);
            assert(readings(*parse)(text@, read_view(read)));
            check_upstream(read, &file.path)
        },
        Err(e) => Err(e),
    }
}

/// The model of how far the load has come.
spec fn progress_view(
    variant_providers: Seq<String>,
    selected: Seq<String>,
    upstreams: Seq<Upstream>,
) -> Progress {
    Progress {
        variant_providers: texts(variant_providers),
        selected: texts(selected),
        upstreams: upstream_views(upstreams),
    }
}

/// `now`, or what went wrong.
spec fn progress_result(r: Result<(), RenderError>, now: Progress) -> Result<Progress, Failure> {
    match r {
        Ok(_) => Ok(now),
        Err(e) => Err(e@),
    }
}

/// Where the file is read, `found` is what it can be read as.
spec fn taken_in_as(
    before: Progress,
    file: FileView,
    selections: Seq<(Seq<char>, Seq<char>)>,
    can: Possible,
    can_read: Readings,
    found: Result<UpstreamFileView, Failure>,
) -> bool {
    reads_file(before, file, selections) ==> may_be_read_as(file, can, can_read, found)
}

/// Takes in one file.
fn load_file<E: Fn(&str) -> Option<String>, P: Fn(&str) -> Result<UpstreamFile, String>>(
    file: &TemplateFile,
    selections: &Vec<(String, String)>,
    env: &E,
    parse: &P,
    variant_providers: &mut Vec<String>,
    selected: &mut Vec<String>,
    upstreams: &mut Vec<Upstream>,
) -> (r: Result<(), RenderError>)
    requires
        may_ask(*env, asked_by(file@, pairs(selections@))),
        may_give(*parse, given_by(file@, pairs(selections@), possible(*env))),
    ensures
        exists|found: Result<UpstreamFileView, Failure>| #[trigger]
            taken_in_as(
                progress_view(old(variant_providers)@, old(selected)@, old(upstreams)@),
                file@,
                pairs(selections@),
                possible(*env),
                readings(*parse),
                found,
            ) && after_file(
                progress_view(old(variant_providers)@, old(selected)@, old(upstreams)@),
                file@,
                pairs(selections@),
                found,
            ) == progress_result(
                r,
                progress_view(final(variant_providers)@, final(selected)@, final(upstreams)@),
            ),
{
    let ghost (v0, s0, u0) = (
        texts(variant_providers@),
        texts(selected@),
        upstream_views(upstreams@),
    );
    let ghost before = progress_view(variant_providers@, selected@, upstreams@);
    let ghost all = pairs(selections@);
    let ghost (can, can_read) = (possible(*env), readings(*parse));
    let ghost unread = Err::<UpstreamFileView, Failure>(
        Failure::ReadUpstream { cause: Seq::empty() },
    );
    let stem = match stem_text(&file.name) {
        None => {
            assert(taken_in_as(before, file@, all, can, can_read, unread));
            return Ok(());
        },
        Some(None) => {
            assert(taken_in_as(before, file@, all, can, can_read, unread));
            return Err(RenderError::NameNotUtf8 { path: file.path.clone() });
        },
        Some(Some(stem)) => stem,
    };
    let (provider, variant) = split_stem(&stem);
    let is_variant = variant.is_some();
    if let Some(variant) = variant {
        variant_providers.push(provider.clone());
        assert(texts(variant_providers@) =~= v0.push(provider@));
        let is_selected = match selected_variant(selections, &provider) {
            Some(selection) => *selection == variant,
            None => false,
        };
        if !is_selected {
            assert(!wanted(file@.name, all));
            assert(taken_in_as(before, file@, all, can, can_read, unread));
            return Ok(());
        }
    }
    assert(wanted(file@.name, all));
    if is_taken(upstreams, &provider) {
        assert(taken_in_as(before, file@, all, can, can_read, unread));
        return Err(RenderError::SeveralFiles { provider });
    }
    if is_variant {
        selected.push(provider.clone());
        assert(texts(selected@) =~= s0.push(provider@));
    }
    let read = read_upstream(file, env, parse, Ghost(all));
    assert(taken_in_as(before, file@, all, can, can_read, file_result(read)));
    match read {
        Ok(file_found) => {
            let upstream = Upstream { provider, file: file_found };
            upstreams.push(upstream);
            assert(upstream_views(upstreams@) =~= u0.push(upstream@));
            Ok(())
        },
        Err(e) => Err(e),
    }
}

/// Loads the upstreams from the files of the upstream directory, in the order
/// of the files' names.
///
/// `selections` picks one variant for each provider that ships variant files
/// (`anthropic.foundry.yaml` is selected by `("anthropic", "foundry")`), `env`
/// resolves `GM_*` variables, and `parse` reads the text of an upstream file.
///
/// # Errors
/// Returns what is wrong with the first file that cannot be used, else what
/// [`check_selections`] finds.
pub fn load_upstreams<E: Fn(&str) -> Option<String>, P: Fn(&str) -> Result<UpstreamFile, String>>(
    files: &Vec<TemplateFile>,
    selections: &Vec<(String, String)>,
    env: &E,
    parse: &P,
) -> (r: Result<Vec<Upstream>, RenderError>)
    requires
        may_ask(*env, asked_by_files(file_views(files@), pairs(selections@))),
        may_give(
            *parse,
            given_by_files(file_views(files@), pairs(selections@), possible(*env)),
        ),
    ensures
        may_load(
            file_views(files@),
            pairs(selections@),
            possible(*env),
            readings(*parse),
            upstreams_result(r),
        ),
        forall|answers: Answers, reader: Reader|
            looks_up(*env, answers, asked_by_files(file_views(files@), pairs(selections@)))
                && reads_as(
                *parse,
                reader,
                given_by_files(file_views(files@), pairs(selections@), possible(*env)),
            ) ==> upstreams_result(r) == loaded(
                file_views(files@),
                pairs(selections@),
                #[trigger] reads_by(answers, reader),
            ),
        r matches Ok(upstreams) ==> {
            &&& providers(upstream_views(upstreams@)) == wanted_providers(
                by_name(file_views(files@)),
                pairs(selections@),
            )
            &&& providers(upstream_views(upstreams@)).no_duplicates()
            &&& forall|i: int|
                0 <= i < upstreams@.len() ==> slots_complete((#[trigger] upstreams@[i]).file@)
        },
        is_mixed(file_views(files@)) ==> r is Err,
{
    let sorted = sort_by_name(files);
    let ghost views = file_views(files@);
    let ghost all = ref_views(sorted@);
    let ghost chosen_pairs = pairs(selections@);
    let ghost (can, can_read) = (possible(*env), readings(*parse));
    let ghost mut reads: Reads = |file: FileView|
        Err::<UpstreamFileView, Failure>(Failure::ReadUpstream { cause: Seq::empty() });
    let mut variant_providers: Vec<String> = Vec::new();
    let mut selected: Vec<String> = Vec::new();
    let mut upstreams: Vec<Upstream> = Vec::new();
    let mut i: usize = 0;
    proof {
        sorting_orders_the_files(views);
        sorted_has_as_many(views);
        assert(texts(variant_providers@) =~= Seq::<Seq<char>>::empty());
        assert(upstream_views(upstreams@) =~= Seq::<UpstreamView>::empty());
    }
    while i < sorted.len()
        invariant
            i <= sorted@.len(),
            views == file_views(files@),
            all == ref_views(sorted@),
            all == by_name(views),
            all.len() == views.len(),
            chosen_pairs == pairs(selections@),
            can == possible(*env),
            can_read == readings(*parse),
            may_ask(*env, asked_by_files(views, chosen_pairs)),
            may_give(*parse, given_by_files(views, chosen_pairs, can)),
            after_files(all.take(i as int), chosen_pairs, reads) == Ok::<Progress, Failure>(
                progress_view(variant_providers@, selected@, upstreams@),
            ),
            reads_possible(all, i as int, chosen_pairs, can, can_read, reads),
        decreases sorted@.len() - i,
    {
        let ghost before = progress_view(variant_providers@, selected@, upstreams@);
        let ghost file = sorted@[i as int]@;
        proof {
            assert(all.take(i + 1).drop_last() =~= all.take(i as int));
            assert(all.take(i + 1).last() == file);
            assert(all[i as int] == file);
            sorted_file_is_listed(views, i as int);
            let k = choose|k: int| 0 <= k < views.len() && views[k] == file;
            assert forall|name: &str| asked_by(file, chosen_pairs)(
                name@,
            ) implies #[trigger] call_requires(*env, (name,)) by {
                assert(asked_by(views[k], chosen_pairs)(name@));
                assert(asked_by_files(views, chosen_pairs)(name@));
            }
            assert forall|text: &str| given_by(file, chosen_pairs, can)(
                text@,
            ) implies #[trigger] call_requires(*parse, (text,)) by {
                assert(given_by(views[k], chosen_pairs, can)(text@));
                assert(given_by_files(views, chosen_pairs, can)(text@));
            }
        }
        let taken = load_file(
            sorted[i],
            selections,
            env,
            parse,
            &mut variant_providers,
            &mut selected,
            &mut upstreams,
        );
        proof {
            let result = progress_result(
                taken,
                progress_view(variant_providers@, selected@, upstreams@),
            );
            let found = choose|found: Result<UpstreamFileView, Failure>| #[trigger]
                taken_in_as(before, file, chosen_pairs, can, can_read, found) && after_file(
                    before,
                    file,
                    chosen_pairs,
                    found,
                ) == result;
            let next = read_on_as(reads, before, file, chosen_pairs, found);
            one_more_read(all, i as int, chosen_pairs, can, can_read, reads, before, found);
            reads = next;
        }
        if let Err(e) = taken {
            proof {
                failure_stays(all, chosen_pairs, reads, i + 1);
                nothing_is_read_past_a_failure(all, i + 1, chosen_pairs, can, can_read, reads);
                let r = Err::<Vec<Upstream>, RenderError>(e);
                assert(upstreams_result(r) == loaded(views, chosen_pairs, reads));
                steady_reads_decide(*env, *parse, views, chosen_pairs, reads);
            }
            return Err(e);
        }
        i += 1;
    }
    assert(all.take(i as int) =~= all);
    let checked = check_selections(selections, &variant_providers, &selected);
    proof {
        steady_reads_decide(*env, *parse, views, chosen_pairs, reads);
        upstreams_are_sound(all, chosen_pairs, reads);
        upstreams_are_of_the_wanted(all, chosen_pairs, reads);
        let ups = upstream_views(upstreams@);
        assert forall|j: int| 0 <= j < upstreams@.len() implies slots_complete(
            (#[trigger] upstreams@[j]).file@,
        ) by {
            assert(ups[j] == upstreams@[j]@);
            read_slots_are_complete(all, chosen_pairs, can, can_read, reads, j);
        }
        if loaded(views, chosen_pairs, reads) is Ok && is_mixed(views) {
            let (plain, variant) = choose|plain: FileView, variant: FileView| #[trigger]
                views.contains(plain) && #[trigger] views.contains(variant) && {
                    &&& stem(plain.name) is Some && names_of(plain).1 is None
                    &&& stem(variant.name) is Some && names_of(variant).1 is Some
                    &&& names_of(plain).0 == names_of(variant).0
                };
            plain_beside_variant_is_refused(views, chosen_pairs, reads, plain, variant);
        }
    }
    match checked {
        Ok(_) => {
            let ghost r = Ok::<Vec<Upstream>, RenderError>(upstreams);
            assert(upstreams_result(r) == loaded(views, chosen_pairs, reads));
            Ok(upstreams)
        },
        Err(e) => {
            let ghost r = Err::<Vec<Upstream>, RenderError>(e);
            assert(upstreams_result(r) == loaded(views, chosen_pairs, reads));
            Err(e)
        },
    }
}

/// `reads`, but for the file that was just read.
spec fn read_on_as(
    reads: Reads,
    before: Progress,
    file: FileView,
    selections: Seq<(Seq<char>, Seq<char>)>,
    found: Result<UpstreamFileView, Failure>,
) -> Reads {
    |other: FileView|
        if other == file && reads_file(before, file, selections) {
            found
        } else {
            reads(other)
        }
}

/// What files are read as that are not wanted does not matter.
proof fn only_wanted_reads_matter(
    files: Seq<FileView>,
    selections: Seq<(Seq<char>, Seq<char>)>,
    a: Reads,
    b: Reads,
)
    requires
        forall|k: int|
            0 <= k < files.len() && wanted((#[trigger] files[k]).name, selections) ==> a(files[k])
                == b(files[k]),
    ensures
        after_files(files, selections, a) == after_files(files, selections, b),
    decreases files.len(),
{
    if files.len() > 0 {
        let init = files.drop_last();
        assert forall|k: int|
            0 <= k < init.len() && wanted((#[trigger] init[k]).name, selections) implies a(init[k])
            == b(init[k]) by {
            assert(files[k] == init[k]);
        }
        only_wanted_reads_matter(init, selections, a, b);
        assert(files[files.len() - 1] == files.last());
    }
}

/// One more file is taken in, and what it was read as is noted.
proof fn one_more_read(
    files: Seq<FileView>,
    i: int,
    selections: Seq<(Seq<char>, Seq<char>)>,
    can: Possible,
    can_read: Readings,
    reads: Reads,
    before: Progress,
    found: Result<UpstreamFileView, Failure>,
)
    requires
        0 <= i < files.len(),
        after_files(files.take(i), selections, reads) == Ok::<Progress, Failure>(before),
        reads_possible(files, i, selections, can, can_read, reads),
        reads_file(before, files[i], selections) ==> may_be_read_as(
            files[i],
            can,
            can_read,
            found,
        ),
    ensures
        ({
            let next = read_on_as(reads, before, files[i], selections, found);
            &&& after_files(files.take(i + 1), selections, next) == after_file(
                before,
                files[i],
                selections,
                found,
            )
            &&& reads_possible(files, i + 1, selections, can, can_read, next)
        }),
{
    let next = read_on_as(reads, before, files[i], selections, found);
    let head = files.take(i);
    upstreams_are_sound(head, selections, reads);
    assert forall|k: int|
        0 <= k < i && wanted((#[trigger] files[k]).name, selections) implies next(files[k])
        == reads(files[k]) by {
        if files[k] == files[i] && reads_file(before, files[i], selections) {
            assert(head[k] == files[k]);
            assert(loaded_from(before.upstreams, head[k], selections, reads));
            let j = choose|j: int|
                0 <= j < before.upstreams.len() && comes_from(
                    #[trigger] before.upstreams[j],
                    head[k],
                    selections,
                    reads,
                );
            assert(before.upstreams[j].provider == names_of(files[i]).0);
        }
    }
    assert forall|n: int| 0 <= n <= i implies after_files(
        #[trigger] files.take(n),
        selections,
        next,
    ) == after_files(files.take(n), selections, reads) by {
        let part = files.take(n);
        assert forall|k: int|
            0 <= k < part.len() && wanted((#[trigger] part[k]).name, selections) implies next(
            part[k],
        ) == reads(part[k]) by {
            assert(part[k] == files[k]);
        }
        only_wanted_reads_matter(part, selections, next, reads);
    }
    assert(files.take(i + 1).drop_last() =~= files.take(i));
    assert(files.take(i + 1).last() == files[i]);
    assert(reads_file(before, files[i], selections) || after_file(
        before,
        files[i],
        selections,
        found,
    ) == after_file(before, files[i], selections, next(files[i])));
    assert forall|k: int| 0 <= k < i + 1 && is_read(files, selections, next, k) implies may_be_read_as(
        #[trigger] files[k],
        can,
        can_read,
        next(files[k]),
    ) by {
        assert(files.take(k) == files.take(k));
        if k < i {
            assert(is_read(files, selections, reads, k));
            assert(next(files[k]) == reads(files[k]));
        }
    }
}

/// Past the first failure no file is read.
proof fn nothing_is_read_past_a_failure(
    files: Seq<FileView>,
    n: int,
    selections: Seq<(Seq<char>, Seq<char>)>,
    can: Possible,
    can_read: Readings,
    reads: Reads,
)
    requires
        0 <= n <= files.len(),
        after_files(files.take(n), selections, reads) is Err,
        reads_possible(files, n, selections, can, can_read, reads),
    ensures
        reads_possible(files, files.len() as int, selections, can, can_read, reads),
{
    assert forall|k: int|
        0 <= k < files.len() && is_read(files, selections, reads, k) implies may_be_read_as(
        #[trigger] files[k],
        can,
        can_read,
        reads(files[k]),
    ) by {
        if k >= n {
            let part = files.take(k);
            assert(part.take(n) =~= files.take(n));
            failure_stays(part, selections, reads, n);
        }
    }
}

/// Where no file failed, every wanted file was read.
proof fn wanted_files_are_read(
    files: Seq<FileView>,
    selections: Seq<(Seq<char>, Seq<char>)>,
    reads: Reads,
    k: int,
)
    requires
        after_files(files, selections, reads) is Ok,
        0 <= k < files.len(),
        wanted(files[k].name, selections),
    ensures
        is_read(files, selections, reads, k),
{
    if after_files(files.take(k), selections, reads) is Err {
        failure_stays(files, selections, reads, k);
    }
    if after_files(files.take(k + 1), selections, reads) is Err {
        failure_stays(files, selections, reads, k + 1);
    }
    assert(files.take(k + 1).drop_last() =~= files.take(k));
    assert(files.take(k + 1).last() == files[k]);
}

/// Where no file failed, the slots of each upstream are complete.
proof fn read_slots_are_complete(
    files: Seq<FileView>,
    selections: Seq<(Seq<char>, Seq<char>)>,
    can: Possible,
    can_read: Readings,
    reads: Reads,
    j: int,
)
    requires
        after_files(files, selections, reads) is Ok,
        reads_possible(files, files.len() as int, selections, can, can_read, reads),
        0 <= j < after_files(files, selections, reads)->Ok_0.upstreams.len(),
    ensures
        slots_complete(after_files(files, selections, reads)->Ok_0.upstreams[j].file),
{
    upstreams_are_sound(files, selections, reads);
    let upstream = after_files(files, selections, reads)->Ok_0.upstreams[j];
    let k = choose|k: int|
        0 <= k < files.len() && comes_from(upstream, #[trigger] files[k], selections, reads);
    wanted_files_are_read(files, selections, reads, k);
    assert(may_be_read_as(files[k], can, can_read, reads(files[k])));
}

/// The upstreams are of the providers of the wanted files, in the order of the files.
proof fn upstreams_are_of_the_wanted(
    files: Seq<FileView>,
    selections: Seq<(Seq<char>, Seq<char>)>,
    reads: Reads,
)
    requires
        after_files(files, selections, reads) is Ok,
    ensures
        providers(after_files(files, selections, reads)->Ok_0.upstreams) == wanted_providers(
            files,
            selections,
        ),
    decreases files.len(),
{
    let ups = after_files(files, selections, reads)->Ok_0.upstreams;
    if files.len() > 0 {
        let init = files.drop_last();
        upstreams_are_of_the_wanted(init, selections, reads);
        let before = after_files(init, selections, reads)->Ok_0;
        progress_of_one_file(before, files.last(), selections, reads);
        if wanted(files.last().name, selections) {
            assert(providers(ups) =~= providers(before.upstreams).push(ups.last().provider));
        }
    } else {
        assert(providers(ups) =~= Seq::<Seq<char>>::empty());
    }
}

/// Where a lookup and a reader always answer alike, a file can be read as one
/// thing only.
pub proof fn steady_read_decides<
    E: Fn(&str) -> Option<String>,
    P: Fn(&str) -> Result<UpstreamFile, String>,
>(
    env: E,
    parse: P,
    file: FileView,
    selections: Seq<(Seq<char>, Seq<char>)>,
    answers: Answers,
    reader: Reader,
    found: Result<UpstreamFileView, Failure>,
)
    requires
        wanted(file.name, selections),
        looks_up(env, answers, asked_by(file, selections)),
        reads_as(parse, reader, given_by(file, selections, possible(env))),
        may_be_read_as(file, possible(env), readings(parse), found),
    ensures
        found == upstream_file(file.text, file.path, answers, reader),
{
    let can = possible(env);
    if let Ok(text) = file.text {
        let result = choose|result: Result<Seq<char>, Seq<char>>| #[trigger]
            may_become(text, can, result) && match result {
                Err(name) => found == Err::<UpstreamFileView, Failure>(
                    Failure::Unset { path: file.path, name },
                ),
                Ok(t) => exists|read: Result<UpstreamFileView, Seq<char>>| #[trigger]
                    readings(parse)(t, read) && found == checked_upstream(read, file.path),
            };
        assert forall|name: Seq<char>, value: Option<Seq<char>>| #[trigger]
            can(name, value) && names(text).contains(name) implies value == answers(name) by {
            assert(asked_by(file, selections)(name));
        }
        steady_lookup_decides(text, can, answers, result);
        if let Ok(t) = result {
            assert(given_by(file, selections, can)(t));
            let read = choose|read: Result<UpstreamFileView, Seq<char>>| #[trigger]
                readings(parse)(t, read) && found == checked_upstream(read, file.path);
            assert(read == reader(t));
        }
    }
}

/// Where a lookup and a reader always answer alike, the files can be loaded as one
/// thing only.
proof fn steady_reads_decide<
    E: Fn(&str) -> Option<String>,
    P: Fn(&str) -> Result<UpstreamFile, String>,
>(
    env: E,
    parse: P,
    files: Seq<FileView>,
    selections: Seq<(Seq<char>, Seq<char>)>,
    reads: Reads,
)
    requires
        reads_possible(
            by_name(files),
            files.len() as int,
            selections,
            possible(env),
            readings(parse),
            reads,
        ),
    ensures
        forall|answers: Answers, reader: Reader|
            looks_up(env, answers, asked_by_files(files, selections)) && reads_as(
                parse,
                reader,
                given_by_files(files, selections, possible(env)),
            ) ==> loaded(files, selections, reads) == loaded(
                files,
                selections,
                #[trigger] reads_by(answers, reader),
            ),
{
    let sorted = by_name(files);
    sorted_has_as_many(files);
    assert forall|answers: Answers, reader: Reader|
        looks_up(env, answers, asked_by_files(files, selections)) && reads_as(
            parse,
            reader,
            given_by_files(files, selections, possible(env)),
        ) implies loaded(files, selections, reads) == loaded(
        files,
        selections,
        #[trigger] reads_by(answers, reader),
    ) by {
        steady_steps(env, parse, files, selections, reads, answers, reader, sorted.len() as int);
        assert(sorted.take(sorted.len() as int) =~= sorted);
    }
}

proof fn steady_steps<
    E: Fn(&str) -> Option<String>,
    P: Fn(&str) -> Result<UpstreamFile, String>,
>(
    env: E,
    parse: P,
    files: Seq<FileView>,
    selections: Seq<(Seq<char>, Seq<char>)>,
    reads: Reads,
    answers: Answers,
    reader: Reader,
    n: int,
)
    requires
        0 <= n <= by_name(files).len(),
        reads_possible(
            by_name(files),
            by_name(files).len() as int,
            selections,
            possible(env),
            readings(parse),
            reads,
        ),
        looks_up(env, answers, asked_by_files(files, selections)),
        reads_as(parse, reader, given_by_files(files, selections, possible(env))),
    ensures
        after_files(by_name(files).take(n), selections, reads) == after_files(
            by_name(files).take(n),
            selections,
            reads_by(answers, reader),
        ),
    decreases n,
{
    let sorted = by_name(files);
    if n > 0 {
        let i = n - 1;
        steady_steps(env, parse, files, selections, reads, answers, reader, i);
        assert(sorted.take(n).drop_last() =~= sorted.take(i));
        assert(sorted.take(n).last() == sorted[i]);
        if is_read(sorted, selections, reads, i) {
            let file = sorted[i];
            assert(may_be_read_as(file, possible(env), readings(parse), reads(file)));
            sorted_file_is_listed(files, i);
            let k = choose|k: int| 0 <= k < files.len() && files[k] == file;
            assert(asked_by(files[k], selections) == asked_by(file, selections));
            assert(given_by(files[k], selections, possible(env)) == given_by(
                file,
                selections,
                possible(env),
            ));
            steady_read_decides(
                env,
                parse,
                file,
                selections,
                answers,
                reader,
                reads(file),
            );
        }
    } else {
        assert(sorted.take(0) =~= Seq::<FileView>::empty());
    }
}

proof fn sorted_has_as_many(files: Seq<FileView>)
    ensures
        by_name(files).len() == files.len(),
{
    broadcast use vstd::seq_lib::group_to_multiset_ensures;

    sorting_orders_the_files(files);
    assert(by_name(files).to_multiset().len() == files.to_multiset().len());
}

proof fn sorted_file_is_listed(files: Seq<FileView>, i: int)
    requires
        0 <= i < by_name(files).len(),
    ensures
        files.contains(by_name(files)[i]),
{
    sorted_has_the_same_files(files, by_name(files)[i]);
    assert(by_name(files).contains(by_name(files)[i]));
}

/// The first failure decides, whatever files follow.
proof fn failure_stays(
    files: Seq<FileView>,
    selections: Seq<(Seq<char>, Seq<char>)>,
    reads: Reads,
    n: int,
)
    requires
        0 <= n <= files.len(),
        after_files(files.take(n), selections, reads) is Err,
    ensures
        after_files(files, selections, reads) == after_files(
            files.take(n),
            selections,
            reads,
        ),
    decreases files.len() - n,
{
    if n < files.len() {
        assert(files.take(n + 1).drop_last() =~= files.take(n));
        failure_stays(files, selections, reads, n + 1);
    } else {
        assert(files.take(n) =~= files);
    }
}

/// The text that a file's stem names: its provider and its variant.
pub open spec fn names_of(file: FileView) -> (Seq<char>, Option<Seq<char>>) {
    provider_and_variant(decode_utf8(stem(file.name)->0))
}

/// The upstream is what a wanted file says of its provider.
pub open spec fn comes_from(
    upstream: UpstreamView,
    file: FileView,
    selections: Seq<(Seq<char>, Seq<char>)>,
    reads: Reads,
) -> bool {
    &&& wanted(file.name, selections)
    &&& names_of(file).0 == upstream.provider
    &&& reads(file) == Ok::<UpstreamFileView, Failure>(upstream.file)
}

/// The file is the variant of `provider` that is selected.
pub open spec fn is_choice(
    file: FileView,
    selections: Seq<(Seq<char>, Seq<char>)>,
    provider: Seq<char>,
) -> bool {
    &&& wanted(file.name, selections)
    &&& names_of(file) == (provider, chosen(selections, provider))
}

/// One of the upstreams is what the file says of its provider.
pub open spec fn loaded_from(
    upstreams: Seq<UpstreamView>,
    file: FileView,
    selections: Seq<(Seq<char>, Seq<char>)>,
    reads: Reads,
) -> bool {
    exists|i: int|
        0 <= i < upstreams.len() && comes_from(
            #[trigger] upstreams[i],
            file,
            selections,
            reads,
        )
}

/// What one more file adds to the progress.
proof fn progress_of_one_file(
    before: Progress,
    file: FileView,
    selections: Seq<(Seq<char>, Seq<char>)>,
    reads: Reads,
)
    requires
        after_file(before, file, selections, reads(file)) is Ok,
    ensures
        ({
            let now = after_file(before, file, selections, reads(file))->Ok_0;
            let is_variant = stem(file.name) is Some && names_of(file).1 is Some;
            let upstream = now.upstreams.last();
            &&& now.variant_providers == if is_variant {
                before.variant_providers.push(names_of(file).0)
            } else {
                before.variant_providers
            }
            &&& !wanted(file.name, selections) ==> now.upstreams == before.upstreams
                && now.selected == before.selected
            &&& wanted(file.name, selections) ==> {
                &&& now.upstreams == before.upstreams.push(upstream)
                &&& comes_from(upstream, file, selections, reads)
                &&& !has_provider(before.upstreams, upstream.provider)
                &&& now.selected == if is_variant {
                    before.selected.push(upstream.provider)
                } else {
                    before.selected
                }
                &&& is_variant ==> is_choice(file, selections, upstream.provider)
            }
        }),
{
    if let Ok(file_found) = reads(file) {
        let added = UpstreamView { provider: names_of(file).0, file: file_found };
        assert(before.upstreams.push(added).last() == added);
    }
}

/// The upstreams are of different providers, each comes from one of the files,
/// and each wanted file has one.
spec fn upstreams_sound(
    ups: Seq<UpstreamView>,
    files: Seq<FileView>,
    selections: Seq<(Seq<char>, Seq<char>)>,
    reads: Reads,
) -> bool {
    &&& forall|i: int, j: int|
        0 <= i < j < ups.len() ==> (#[trigger] ups[i]).provider != (#[trigger] ups[j]).provider
    &&& forall|i: int|
        0 <= i < ups.len() ==> exists|k: int|
            0 <= k < files.len() && comes_from(
                #[trigger] ups[i],
                #[trigger] files[k],
                selections,
                reads,
            )
    &&& forall|k: int|
        0 <= k < files.len() && wanted((#[trigger] files[k]).name, selections) ==> loaded_from(
            ups,
            files[k],
            selections,
            reads,
        )
}

/// A provider is noted as selected for one of the files, and every provider of a
/// variant file is noted.
spec fn notes_sound(
    progress: Progress,
    files: Seq<FileView>,
    selections: Seq<(Seq<char>, Seq<char>)>,
) -> bool {
    &&& forall|p: Seq<char>| #[trigger]
        progress.selected.contains(p) ==> exists|k: int|
            0 <= k < files.len() && is_choice(#[trigger] files[k], selections, p)
    &&& forall|k: int|
        0 <= k < files.len() && stem((#[trigger] files[k]).name) is Some && names_of(
            files[k],
        ).1 is Some ==> progress.variant_providers.contains(names_of(files[k]).0)
}

/// One more file that is not wanted leaves the upstreams sound.
proof fn sound_past_another_file(
    ups: Seq<UpstreamView>,
    files: Seq<FileView>,
    selections: Seq<(Seq<char>, Seq<char>)>,
    reads: Reads,
)
    requires
        files.len() > 0,
        upstreams_sound(ups, files.drop_last(), selections, reads),
        !wanted(files.last().name, selections),
    ensures
        upstreams_sound(ups, files, selections, reads),
{
    let init = files.drop_last();
    assert forall|i: int| 0 <= i < ups.len() implies exists|k: int|
        0 <= k < files.len() && comes_from(
            #[trigger] ups[i],
            #[trigger] files[k],
            selections,
            reads,
        ) by {
        let k = choose|k: int|
            0 <= k < init.len() && comes_from(
                ups[i],
                #[trigger] init[k],
                selections,
                reads,
            );
        assert(files[k] == init[k]);
    }
    assert forall|k: int|
        0 <= k < files.len() && wanted((#[trigger] files[k]).name, selections) implies loaded_from(
        ups,
        files[k],
        selections,
        reads,
    ) by {
        assert(init[k] == files[k]);
    }
}

/// One more file that is wanted leaves the upstreams sound, with one more.
proof fn sound_with_another_upstream(
    old_ups: Seq<UpstreamView>,
    upstream: UpstreamView,
    files: Seq<FileView>,
    selections: Seq<(Seq<char>, Seq<char>)>,
    reads: Reads,
)
    requires
        files.len() > 0,
        upstreams_sound(old_ups, files.drop_last(), selections, reads),
        comes_from(upstream, files.last(), selections, reads),
        !has_provider(old_ups, upstream.provider),
    ensures
        upstreams_sound(old_ups.push(upstream), files, selections, reads),
{
    let init = files.drop_last();
    let ups = old_ups.push(upstream);
    let n = files.len() - 1;
    assert(files[n] == files.last());
    assert forall|i: int| 0 <= i < ups.len() implies exists|k: int|
        0 <= k < files.len() && comes_from(
            #[trigger] ups[i],
            #[trigger] files[k],
            selections,
            reads,
        ) by {
        if i < old_ups.len() {
            assert(ups[i] == old_ups[i]);
            let k = choose|k: int|
                0 <= k < init.len() && comes_from(
                    old_ups[i],
                    #[trigger] init[k],
                    selections,
                    reads,
                );
            assert(files[k] == init[k]);
        } else {
            assert(comes_from(ups[i], files[n], selections, reads));
        }
    }
    assert forall|k: int|
        0 <= k < files.len() && wanted((#[trigger] files[k]).name, selections) implies loaded_from(
        ups,
        files[k],
        selections,
        reads,
    ) by {
        if k < n {
            assert(init[k] == files[k]);
            let i = choose|i: int|
                0 <= i < old_ups.len() && comes_from(
                    #[trigger] old_ups[i],
                    init[k],
                    selections,
                    reads,
                );
            assert(ups[i] == old_ups[i]);
        } else {
            assert(comes_from(ups[old_ups.len() as int], files[k], selections, reads));
        }
    }
    assert forall|i: int, j: int| 0 <= i < j < ups.len() implies (#[trigger] ups[i]).provider != (
    #[trigger] ups[j]).provider by {
        assert(old_ups[i] == ups[i]);
        if j < old_ups.len() {
            assert(old_ups[j] == ups[j]);
        }
    }
}

proof fn upstreams_are_sound(
    files: Seq<FileView>,
    selections: Seq<(Seq<char>, Seq<char>)>,
    reads: Reads,
)
    requires
        after_files(files, selections, reads) is Ok,
    ensures
        upstreams_sound(
            after_files(files, selections, reads)->Ok_0.upstreams,
            files,
            selections,
            reads,
        ),
    decreases files.len(),
{
    if files.len() > 0 {
        let (init, file) = (files.drop_last(), files.last());
        upstreams_are_sound(init, selections, reads);
        let before = after_files(init, selections, reads)->Ok_0;
        let now = after_files(files, selections, reads)->Ok_0;
        progress_of_one_file(before, file, selections, reads);
        if wanted(file.name, selections) {
            let upstream = now.upstreams.last();
            sound_with_another_upstream(
                before.upstreams,
                upstream,
                files,
                selections,
                reads,
            );
        } else {
            sound_past_another_file(before.upstreams, files, selections, reads);
        }
    }
}

/// Where no file failed, no two wanted files are of one provider.
proof fn wanted_providers_differ(
    files: Seq<FileView>,
    selections: Seq<(Seq<char>, Seq<char>)>,
    reads: Reads,
    j: int,
    k: int,
)
    requires
        after_files(files, selections, reads) is Ok,
        0 <= j < k < files.len(),
        wanted(files[j].name, selections),
        wanted(files[k].name, selections),
    ensures
        names_of(files[j]).0 != names_of(files[k]).0,
    decreases files.len(),
{
    let (init, file) = (files.drop_last(), files.last());
    assert(init[j] == files[j]);
    if k < init.len() {
        assert(init[k] == files[k]);
        wanted_providers_differ(init, selections, reads, j, k);
    } else {
        let before = after_files(init, selections, reads)->Ok_0;
        upstreams_are_sound(init, selections, reads);
        progress_of_one_file(before, file, selections, reads);
        let ups = before.upstreams;
        assert(loaded_from(ups, init[j], selections, reads));
        let i = choose|i: int|
            0 <= i < ups.len() && comes_from(
                #[trigger] ups[i],
                init[j],
                selections,
                reads,
            );
        assert(ups[i].provider == names_of(files[j]).0);
    }
}

proof fn notes_are_sound(
    files: Seq<FileView>,
    selections: Seq<(Seq<char>, Seq<char>)>,
    reads: Reads,
)
    requires
        after_files(files, selections, reads) is Ok,
    ensures
        notes_sound(after_files(files, selections, reads)->Ok_0, files, selections),
    decreases files.len(),
{
    if files.len() > 0 {
        let (init, file) = (files.drop_last(), files.last());
        notes_are_sound(init, selections, reads);
        let before = after_files(init, selections, reads)->Ok_0;
        progress_of_one_file(before, file, selections, reads);
        let now = after_files(files, selections, reads)->Ok_0;
        assert forall|p: Seq<char>| #[trigger] now.selected.contains(p) implies exists|k: int|
            0 <= k < files.len() && is_choice(#[trigger] files[k], selections, p) by {
            if before.selected.contains(p) {
                let k = choose|k: int|
                    0 <= k < init.len() && is_choice(#[trigger] init[k], selections, p);
                assert(is_choice(files[k], selections, p));
            } else {
                let i = choose|i: int| 0 <= i < now.selected.len() && now.selected[i] == p;
                if i < before.selected.len() {
                    assert(before.selected[i] == p);
                }
                assert(is_choice(files[files.len() - 1], selections, p));
            }
        }
        assert forall|k: int|
            0 <= k < files.len() && stem((#[trigger] files[k]).name) is Some && names_of(
                files[k],
            ).1 is Some implies now.variant_providers.contains(names_of(files[k]).0) by {
            let p = names_of(files[k]).0;
            if k < init.len() {
                assert(init[k] == files[k]);
                let i = choose|i: int|
                    0 <= i < before.variant_providers.len() && before.variant_providers[i] == p;
                assert(now.variant_providers[i] == p);
            } else {
                assert(now.variant_providers[now.variant_providers.len() - 1] == p);
            }
        }
    }
}

/// Each upstream is of another provider.
pub proof fn providers_are_distinct(
    files: Seq<FileView>,
    selections: Seq<(Seq<char>, Seq<char>)>,
    reads: Reads,
    i: int,
    j: int,
)
    requires
        loaded(files, selections, reads) is Ok,
        0 <= i < j < loaded(files, selections, reads)->Ok_0.len(),
    ensures
        ({
            let upstreams = loaded(files, selections, reads)->Ok_0;
            upstreams[i].provider != upstreams[j].provider
        }),
{
    upstreams_are_sound(by_name(files), selections, reads);
}

/// Each upstream comes from a file of the directory that is wanted.
pub proof fn upstreams_come_from_files(
    files: Seq<FileView>,
    selections: Seq<(Seq<char>, Seq<char>)>,
    reads: Reads,
    i: int,
)
    requires
        loaded(files, selections, reads) is Ok,
        0 <= i < loaded(files, selections, reads)->Ok_0.len(),
    ensures
        ({
            let upstream = loaded(files, selections, reads)->Ok_0[i];
            exists|file: FileView| #[trigger]
                files.contains(file) && comes_from(upstream, file, selections, reads)
        }),
{
    let sorted = by_name(files);
    upstreams_are_sound(sorted, selections, reads);
    let upstream = loaded(files, selections, reads)->Ok_0[i];
    let k = choose|k: int|
        0 <= k < sorted.len() && comes_from(
            upstream,
            #[trigger] sorted[k],
            selections,
            reads,
        );
    sorted_has_the_same_files(files, sorted[k]);
    assert(sorted.contains(sorted[k]));
    assert(files.contains(sorted[k]));
}

/// Each upstream is what a wanted file of its provider can be read as.
pub proof fn upstreams_are_possible_reads(
    files: Seq<FileView>,
    selections: Seq<(Seq<char>, Seq<char>)>,
    can: Possible,
    can_read: Readings,
    upstreams: Seq<UpstreamView>,
    i: int,
)
    requires
        may_load(files, selections, can, can_read, Ok(upstreams)),
        0 <= i < upstreams.len(),
    ensures
        exists|k: int|
            {
                &&& 0 <= k < files.len()
                &&& wanted((#[trigger] files[k]).name, selections)
                &&& names_of(files[k]).0 == upstreams[i].provider
                &&& may_be_read_as(files[k], can, can_read, Ok(upstreams[i].file))
            },
{
    let sorted = by_name(files);
    let reads = choose|reads: Reads|
        {
            &&& reads_possible(sorted, files.len() as int, selections, can, can_read, reads)
            &&& Ok::<Seq<UpstreamView>, Failure>(upstreams) == #[trigger] loaded(
                files,
                selections,
                reads,
            )
        };
    sorted_has_as_many(files);
    upstreams_are_sound(sorted, selections, reads);
    let j = choose|j: int|
        0 <= j < sorted.len() && comes_from(upstreams[i], #[trigger] sorted[j], selections, reads);
    wanted_files_are_read(sorted, selections, reads, j);
    assert(may_be_read_as(sorted[j], can, can_read, reads(sorted[j])));
    sorted_file_is_listed(files, j);
    let k = choose|k: int| 0 <= k < files.len() && files[k] == sorted[j];
    assert(wanted(files[k].name, selections));
}

/// No wanted file is passed over: one of the upstreams is what it says.
pub proof fn wanted_files_are_loaded(
    files: Seq<FileView>,
    selections: Seq<(Seq<char>, Seq<char>)>,
    reads: Reads,
    file: FileView,
)
    requires
        loaded(files, selections, reads) is Ok,
        files.contains(file),
        wanted(file.name, selections),
    ensures
        loaded_from(
            loaded(files, selections, reads)->Ok_0,
            file,
            selections,
            reads,
        ),
{
    let sorted = by_name(files);
    upstreams_are_sound(sorted, selections, reads);
    sorted_has_the_same_files(files, file);
    let k = choose|k: int| 0 <= k < sorted.len() && sorted[k] == file;
    assert(wanted(sorted[k].name, selections));
}

/// Every selection is met: one of the upstreams comes from the file with the
/// variant that is selected for the provider.
pub proof fn selections_are_met(
    files: Seq<FileView>,
    selections: Seq<(Seq<char>, Seq<char>)>,
    reads: Reads,
    i: int,
)
    requires
        loaded(files, selections, reads) is Ok,
        0 <= i < selections.len(),
    ensures
        exists|file: FileView| #[trigger]
            files.contains(file) && is_choice(file, selections, selections[i].0) && loaded_from(
                loaded(files, selections, reads)->Ok_0,
                file,
                selections,
                reads,
            ),
{
    let sorted = by_name(files);
    upstreams_are_sound(sorted, selections, reads);
    notes_are_sound(sorted, selections, reads);
    let progress = after_files(sorted, selections, reads)->Ok_0;
    check_passes_when_complete(selections, progress.variant_providers, progress.selected);
    let provider = selections[i].0;
    assert(progress.selected.contains(provider));
    let k = choose|k: int|
        0 <= k < sorted.len() && is_choice(#[trigger] sorted[k], selections, provider);
    sorted_has_the_same_files(files, sorted[k]);
    assert(sorted.contains(sorted[k]));
    assert(files.contains(sorted[k]));
}

/// A provider that ships variant files has a selection.
pub proof fn variants_are_selected(
    files: Seq<FileView>,
    selections: Seq<(Seq<char>, Seq<char>)>,
    reads: Reads,
    file: FileView,
)
    requires
        loaded(files, selections, reads) is Ok,
        files.contains(file),
        stem(file.name) is Some,
        names_of(file).1 is Some,
    ensures
        chosen(selections, names_of(file).0) is Some,
{
    let sorted = by_name(files);
    notes_are_sound(sorted, selections, reads);
    let progress = after_files(sorted, selections, reads)->Ok_0;
    check_passes_when_complete(selections, progress.variant_providers, progress.selected);
    sorted_has_the_same_files(files, file);
    let k = choose|k: int| 0 <= k < sorted.len() && sorted[k] == file;
    let p = names_of(sorted[k]).0;
    assert(progress.variant_providers.contains(p));
    let j = choose|j: int|
        0 <= j < progress.variant_providers.len() && progress.variant_providers[j] == p;
    assert(chosen(selections, progress.variant_providers[j]) is Some);
}

proof fn sorted_has_the_same_files(files: Seq<FileView>, file: FileView)
    ensures
        by_name(files).contains(file) <==> files.contains(file),
{
    broadcast use vstd::seq_lib::group_to_multiset_ensures;

    sorting_orders_the_files(files);
    assert(files.contains(file) <==> files.to_multiset().count(file) > 0);
    assert(by_name(files).contains(file) <==> by_name(files).to_multiset().count(file) > 0);
}

/// What is seen of a file: all of it, but for the text of one that is not wanted.
pub open spec fn seen(file: FileView, selections: Seq<(Seq<char>, Seq<char>)>) -> FileView {
    FileView {
        text: if wanted(file.name, selections) {
            file.text
        } else {
            Ok(Seq::empty())
        },
        ..file
    }
}

/// `view` is what is seen of one of the files with a stem.
pub open spec fn is_seen(
    files: Seq<FileView>,
    selections: Seq<(Seq<char>, Seq<char>)>,
    view: FileView,
) -> bool {
    exists|i: int|
        0 <= i < files.len() && stem((#[trigger] files[i]).name) is Some && seen(
            files[i],
            selections,
        ) == view
}

/// What is seen of the files with a stem, in their order.
spec fn all_seen(files: Seq<FileView>, selections: Seq<(Seq<char>, Seq<char>)>) -> Seq<FileView>
    decreases files.len(),
{
    if files.len() == 0 {
        Seq::empty()
    } else if stem(files.last().name) is Some {
        all_seen(files.drop_last(), selections).push(seen(files.last(), selections))
    } else {
        all_seen(files.drop_last(), selections)
    }
}

proof fn only_what_is_seen_counts(
    files: Seq<FileView>,
    selections: Seq<(Seq<char>, Seq<char>)>,
    reads: Reads,
)
    ensures
        after_files(all_seen(files, selections), selections, reads) == after_files(
            files,
            selections,
            reads,
        ),
    decreases files.len(),
{
    if files.len() > 0 {
        let (init, file) = (files.drop_last(), files.last());
        only_what_is_seen_counts(init, selections, reads);
        let before = all_seen(init, selections);
        assert(before.push(seen(file, selections)).drop_last() =~= before);
    }
}

/// The list of what is seen holds what is seen of the files, by their names.
proof fn all_seen_holds(
    files: Seq<FileView>,
    selections: Seq<(Seq<char>, Seq<char>)>,
    view: FileView,
)
    ensures
        all_seen(files, selections).contains(view) <==> is_seen(files, selections, view),
    decreases files.len(),
{
    if files.len() > 0 {
        let (init, file) = (files.drop_last(), files.last());
        all_seen_holds(init, selections, view);
        let before = all_seen(init, selections);
        let now = all_seen(files, selections);
        assert(files[files.len() - 1] == file);
        if is_seen(init, selections, view) {
            let i = choose|i: int|
                0 <= i < init.len() && stem((#[trigger] init[i]).name) is Some && seen(
                    init[i],
                    selections,
                ) == view;
            assert(files[i] == init[i]);
            let k = choose|k: int| 0 <= k < before.len() && before[k] == view;
            assert(now[k] == view);
        }
        if is_seen(files, selections, view) && !is_seen(init, selections, view) {
            let i = choose|i: int|
                0 <= i < files.len() && stem((#[trigger] files[i]).name) is Some && seen(
                    files[i],
                    selections,
                ) == view;
            if i < init.len() {
                assert(init[i] == files[i]);
            }
            assert(now[now.len() - 1] == view);
        }
        if now.contains(view) && !before.contains(view) {
            let k = choose|k: int| 0 <= k < now.len() && now[k] == view;
            if k < before.len() {
                assert(before[k] == view);
            }
            assert(seen(files[files.len() - 1], selections) == view);
        }
    }
}

/// What is seen of orderly files with distinct names is orderly, with distinct names.
proof fn all_seen_is_orderly(files: Seq<FileView>, selections: Seq<(Seq<char>, Seq<char>)>)
    requires
        in_order(files),
        names_distinct(files),
    ensures
        in_order(all_seen(files, selections)),
        names_distinct(all_seen(files, selections)),
    decreases files.len(),
{
    if files.len() > 0 {
        let (init, file) = (files.drop_last(), files.last());
        assert forall|i: int, j: int| 0 <= i < j < init.len() implies !bytes_before(
            (#[trigger] init[j]).name,
            (#[trigger] init[i]).name,
        ) by {
            assert(init[i] == files[i] && init[j] == files[j]);
        }
        assert forall|i: int, j: int| 0 <= i < j < init.len() implies (#[trigger] init[i]).name != (
        #[trigger] init[j]).name by {
            assert(init[i] == files[i] && init[j] == files[j]);
        }
        all_seen_is_orderly(init, selections);
        let before = all_seen(init, selections);
        assert forall|k: int| 0 <= k < before.len() implies (#[trigger] before[k]).name != file.name
            && !bytes_before(file.name, before[k].name) by {
            assert(before.contains(before[k]));
            all_seen_holds(init, selections, before[k]);
            let i = choose|i: int|
                0 <= i < init.len() && stem((#[trigger] init[i]).name) is Some && seen(
                    init[i],
                    selections,
                ) == before[k];
            assert(init[i] == files[i]);
            assert(files[files.len() - 1] == file);
        }
    }
}

proof fn sorted_files_are_seen(
    files: Seq<FileView>,
    selections: Seq<(Seq<char>, Seq<char>)>,
    view: FileView,
)
    ensures
        is_seen(by_name(files), selections, view) <==> is_seen(files, selections, view),
{
    let sorted = by_name(files);
    if is_seen(files, selections, view) {
        let i = choose|i: int|
            0 <= i < files.len() && stem((#[trigger] files[i]).name) is Some && seen(
                files[i],
                selections,
            ) == view;
        assert(files.contains(files[i]));
        sorted_has_the_same_files(files, files[i]);
        let k = choose|k: int| 0 <= k < sorted.len() && sorted[k] == files[i];
        assert(stem(sorted[k].name) is Some);
    }
    if is_seen(sorted, selections, view) {
        let i = choose|i: int|
            0 <= i < sorted.len() && stem((#[trigger] sorted[i]).name) is Some && seen(
                sorted[i],
                selections,
            ) == view;
        assert(sorted.contains(sorted[i]));
        sorted_has_the_same_files(files, sorted[i]);
        let k = choose|k: int| 0 <= k < files.len() && files[k] == sorted[i];
        assert(stem(files[k].name) is Some);
    }
}

/// Other files, and what an upstream file holds that is not wanted, do not matter:
/// two listings that differ only in files without a stem, in the text of files that
/// are not wanted, and in their order, load the same upstreams or fail alike.
pub proof fn only_wanted_texts_matter(
    a: Seq<FileView>,
    b: Seq<FileView>,
    selections: Seq<(Seq<char>, Seq<char>)>,
    reads: Reads,
)
    requires
        names_distinct(a),
        names_distinct(b),
        forall|view: FileView| #[trigger]
            is_seen(a, selections, view) <==> is_seen(b, selections, view),
    ensures
        loaded(a, selections, reads) == loaded(b, selections, reads),
{
    let (x, y) = (by_name(a), by_name(b));
    sorting_orders_the_files(a);
    sorting_orders_the_files(b);
    sorted_names_are_distinct(a);
    sorted_names_are_distinct(b);
    all_seen_is_orderly(x, selections);
    all_seen_is_orderly(y, selections);
    let (p, q) = (all_seen(x, selections), all_seen(y, selections));
    assert forall|view: FileView| #[trigger] p.contains(view) <==> q.contains(view) by {
        all_seen_holds(x, selections, view);
        all_seen_holds(y, selections, view);
        sorted_files_are_seen(a, selections, view);
        sorted_files_are_seen(b, selections, view);
        assert(is_seen(a, selections, view) <==> is_seen(b, selections, view));
    }
    same_files_same_list(p, q);
    only_what_is_seen_counts(x, selections, reads);
    only_what_is_seen_counts(y, selections, reads);
}

/// A plain file and a variant file of one provider cannot stand together: whatever
/// is selected, the upstreams are refused.
pub proof fn plain_beside_variant_is_refused(
    files: Seq<FileView>,
    selections: Seq<(Seq<char>, Seq<char>)>,
    reads: Reads,
    plain: FileView,
    variant: FileView,
)
    requires
        files.contains(plain),
        files.contains(variant),
        stem(plain.name) is Some,
        stem(variant.name) is Some,
        names_of(plain).1 is None,
        names_of(variant).1 is Some,
        names_of(plain).0 == names_of(variant).0,
    ensures
        loaded(files, selections, reads) is Err,
{
    if loaded(files, selections, reads) is Ok {
        let provider = names_of(plain).0;
        let sorted = by_name(files);
        variants_are_selected(files, selections, reads, variant);
        chosen_is_listed(selections, provider);
        let i = choose|i: int|
            0 <= i < selections.len() && (#[trigger] selections[i]).0 == provider;
        selections_are_met(files, selections, reads, i);
        let choice = choose|file: FileView| #[trigger]
            files.contains(file) && is_choice(file, selections, provider) && loaded_from(
                loaded(files, selections, reads)->Ok_0,
                file,
                selections,
                reads,
            );
        sorted_has_the_same_files(files, plain);
        sorted_has_the_same_files(files, choice);
        let j = choose|j: int| 0 <= j < sorted.len() && sorted[j] == plain;
        let k = choose|k: int| 0 <= k < sorted.len() && sorted[k] == choice;
        names_are_text(sorted, selections, reads, j);
        assert(wanted(sorted[j].name, selections) && wanted(sorted[k].name, selections));
        if j < k {
            wanted_providers_differ(sorted, selections, reads, j, k);
        } else {
            wanted_providers_differ(sorted, selections, reads, k, j);
        }
    }
}

/// Where no file failed, the stem of each is text.
proof fn names_are_text(
    files: Seq<FileView>,
    selections: Seq<(Seq<char>, Seq<char>)>,
    reads: Reads,
    k: int,
)
    requires
        after_files(files, selections, reads) is Ok,
        0 <= k < files.len(),
        stem(files[k].name) is Some,
    ensures
        valid_utf8(stem(files[k].name)->0),
    decreases files.len(),
{
    let init = files.drop_last();
    if k < init.len() {
        assert(init[k] == files[k]);
        names_are_text(init, selections, reads, k);
    }
}

/// What becomes of a reading. An accepted file is kept as it was read: its slots,
/// disabled or not, its routes and its clusters. It is accepted but where its slots
/// are those of a direct upstream in use and name no header for the key.
pub proof fn accepted_file_is_kept(
    read: Result<UpstreamFileView, Seq<char>>,
    path: Seq<char>,
    file: UpstreamFileView,
    cause: Seq<char>,
)
    ensures
        checked_upstream(read, path) == Ok::<UpstreamFileView, Failure>(file) <==> read == Ok::<
            UpstreamFileView,
            Seq<char>,
        >(file) && (file.slots matches Some(slots) ==> {
            ||| slots.cloud
            ||| slots.disabled
            ||| slots.auth_header is Some
        }),
        read == Err::<UpstreamFileView, Seq<char>>(cause) ==> checked_upstream(read, path) == Err::<
            UpstreamFileView,
            Failure,
        >(Failure::Parse { path, cause }),
        read is Ok && checked_upstream(read, path) is Err ==> checked_upstream(read, path) == Err::<
            UpstreamFileView,
            Failure,
        >(Failure::NoAuthHeader { path }),
        (checked_upstream(read, path) matches Ok(kept) ==> {
            &&& read is Ok
            &&& kept.slots == read->Ok_0.slots
            &&& kept.routes == read->Ok_0.routes
            &&& kept.clusters == read->Ok_0.clusters
        }),
{
}

/// A file whose slots are disabled keeps its slots.
pub proof fn disabled_slots_are_kept(
    file: UpstreamFileView,
    slots: SlotsView,
    path: Seq<char>,
)
    requires
        file.slots == Some(slots),
        slots.disabled,
    ensures
        checked_upstream(Ok(file), path) matches Ok(kept) && kept.slots == Some(slots),
{
}

/// What a reader of upstream files returns is kept: each slot setting, each route
/// and each cluster, or the cause.
pub proof fn reading_is_kept(file: UpstreamFile, cause: String)
    ensures
        read_view(Ok(file)) == Ok::<UpstreamFileView, Seq<char>>(file@),
        read_view(Err(cause)) == Err::<UpstreamFileView, Seq<char>>(cause@),
{
}

/// What comes of a load is kept.
pub proof fn load_is_kept(upstreams: Vec<Upstream>, file: UpstreamFile, e: RenderError)
    ensures
        upstreams_result(Ok(upstreams)) matches Ok(views) && views.len() == upstreams@.len()
            && forall|i: int| 0 <= i < views.len() ==> #[trigger] views[i] == upstreams@[i]@,
        upstreams_result(Err(e)) == Err::<Seq<UpstreamView>, Failure>(e@),
        file_result(Ok(file)) == Ok::<UpstreamFileView, Failure>(file@),
        file_result(Err(e)) == Err::<UpstreamFileView, Failure>(e@),
{
}

/// A reader that goes by a table reads as the table says, whatever it is given.
pub proof fn table_is_read<P: Fn(&str) -> Result<UpstreamFile, String>>(
    parse: P,
    table: Reader,
    given: Texts,
)
    requires
        forall|text: &str, read: Result<UpstreamFile, String>| #[trigger]
            call_ensures(parse, (text,), read) ==> match read {
                Ok(file) => table(text@) == Ok::<UpstreamFileView, Seq<char>>(file@),
                Err(cause) => table(text@) == Err::<UpstreamFileView, Seq<char>>(cause@),
            },
    ensures
        reads_as(parse, table, given),
        forall|text: Seq<char>, read: Result<UpstreamFileView, Seq<char>>| #[trigger]
            readings(parse)(text, read) ==> read == table(text),
{
}

/// What a file is read as: its text with the values in place of its tokens, read and
/// accepted. Else the failure is that of the first step that fails.
pub proof fn file_is_read_in_steps(
    file: FileView,
    answers: Answers,
    reader: Reader,
    found: UpstreamFileView,
)
    ensures
        ({
            let read = reads_by(answers, reader)(file);
            &&& read == Ok::<UpstreamFileView, Failure>(found) <==> {
                &&& file.text is Ok
                &&& substituted(file.text->Ok_0, answers, file.path) is Ok
                &&& reader(substituted(file.text->Ok_0, answers, file.path)->Ok_0) == Ok::<
                    UpstreamFileView,
                    Seq<char>,
                >(found)
                &&& found.slots matches Some(slots) ==> slots.cloud || slots.disabled
                    || slots.auth_header is Some
            }
            &&& file.text matches Err(cause) ==> read == Err::<UpstreamFileView, Failure>(
                Failure::ReadUpstream { cause },
            )
            &&& file.text matches Ok(text) ==> {
                let became = substituted(text, answers, file.path);
                &&& became matches Err(failure) ==> read == Err::<UpstreamFileView, Failure>(
                    failure,
                )
                &&& became matches Ok(t) ==> {
                    &&& reader(t) matches Err(cause) ==> read == Err::<UpstreamFileView, Failure>(
                        Failure::Parse { path: file.path, cause },
                    )
                    &&& reader(t) is Ok && read is Err ==> read == Err::<UpstreamFileView, Failure>(
                        Failure::NoAuthHeader { path: file.path },
                    )
                }
            }
        }),
{
}

/// What a file can be read as: one of the readings of what its text can become, or a
/// failure of one of the steps to it.
pub proof fn possible_reads(
    file: FileView,
    can: Possible,
    can_read: Readings,
    found: UpstreamFileView,
    failure: Failure,
)
    ensures
        may_be_read_as(file, can, can_read, Ok(found)) ==> exists|t: Seq<char>|
            {
                &&& file.text is Ok
                &&& #[trigger] may_become(file.text->Ok_0, can, Ok(t))
                &&& can_read(t, Ok(found))
                &&& found.slots matches Some(slots) ==> slots.cloud || slots.disabled
                    || slots.auth_header is Some
            },
        may_be_read_as(file, can, can_read, Err(failure)) ==> match failure {
            Failure::ReadUpstream { cause } => file.text == Err::<Seq<char>, Seq<char>>(cause),
            Failure::Unset { path, name } => {
                &&& path == file.path
                &&& file.text is Ok
                &&& may_become(file.text->Ok_0, can, Err(name))
            },
            Failure::Parse { path, cause } => {
                &&& path == file.path
                &&& file.text is Ok
                &&& exists|t: Seq<char>| #[trigger]
                    may_become(file.text->Ok_0, can, Ok(t)) && can_read(t, Err(cause))
            },
            Failure::NoAuthHeader { path } => path == file.path && file.text is Ok,
            _ => false,
        },
{
    if let Ok(text) = file.text {
        if may_be_read_as(file, can, can_read, Ok(found)) {
            let result = choose|result: Result<Seq<char>, Seq<char>>| #[trigger]
                may_become(text, can, result) && match result {
                    Err(name) => false,
                    Ok(t) => exists|read: Result<UpstreamFileView, Seq<char>>| #[trigger]
                        can_read(t, read) && Ok::<UpstreamFileView, Failure>(found)
                            == checked_upstream(read, file.path),
                };
            assert(may_become(text, can, Ok(result->Ok_0)));
        }
        if may_be_read_as(file, can, can_read, Err(failure)) {
            let result = choose|result: Result<Seq<char>, Seq<char>>| #[trigger]
                may_become(text, can, result) && match result {
                    Err(name) => failure == (Failure::Unset { path: file.path, name }),
                    Ok(t) => exists|read: Result<UpstreamFileView, Seq<char>>| #[trigger]
                        can_read(t, read) && Err::<UpstreamFileView, Failure>(failure)
                            == checked_upstream(read, file.path),
                };
            if let Ok(t) = result {
                assert(may_become(text, can, Ok(t)));
            }
        }
    }
}

/// The files are fine, one by one: their stems are text, and of those that are
/// wanted no two are of one provider and each can be read.
pub open spec fn files_fine(
    files: Seq<FileView>,
    selections: Seq<(Seq<char>, Seq<char>)>,
    reads: Reads,
) -> bool {
    &&& forall|i: int|
        0 <= i < files.len() && stem((#[trigger] files[i]).name) is Some ==> valid_utf8(
            stem(files[i].name)->0,
        )
    &&& forall|i: int|
        0 <= i < files.len() && wanted((#[trigger] files[i]).name, selections) ==> reads(
            files[i],
        ) is Ok
    &&& forall|i: int, j: int|
        0 <= i < j < files.len() && wanted((#[trigger] files[i]).name, selections) && wanted(
            (#[trigger] files[j]).name,
            selections,
        ) ==> names_of(files[i]).0 != names_of(files[j]).0
}

/// The providers of the files that `p` holds of, in the order of the files.
pub open spec fn providers_where(files: Seq<FileView>, p: spec_fn(FileView) -> bool) -> Seq<
    Seq<char>,
> {
    files.filter(p).map_values(|file: FileView| names_of(file).0)
}

/// The upstreams of the wanted files, in the order of the files.
pub open spec fn upstreams_of(
    files: Seq<FileView>,
    selections: Seq<(Seq<char>, Seq<char>)>,
    reads: Reads,
) -> Seq<UpstreamView> {
    files.filter(|file: FileView| wanted(file.name, selections)).map_values(
        |file: FileView| UpstreamView { provider: names_of(file).0, file: reads(file)->Ok_0 },
    )
}

/// The file is a variant file.
pub open spec fn is_variant_file() -> spec_fn(FileView) -> bool {
    |file: FileView| stem(file.name) is Some && names_of(file).1 is Some
}

/// The file is a variant file that is wanted.
pub open spec fn is_wanted_variant(selections: Seq<(Seq<char>, Seq<char>)>) -> spec_fn(
    FileView,
) -> bool {
    |file: FileView| wanted(file.name, selections) && names_of(file).1 is Some
}

proof fn fine_files_are_all_taken_in(
    files: Seq<FileView>,
    selections: Seq<(Seq<char>, Seq<char>)>,
    reads: Reads,
)
    ensures
        after_files(files, selections, reads) is Ok <==> files_fine(files, selections, reads),
        after_files(files, selections, reads) matches Ok(progress) ==> {
            &&& progress.upstreams == upstreams_of(files, selections, reads)
            &&& progress.variant_providers == providers_where(files, is_variant_file())
            &&& progress.selected == providers_where(files, is_wanted_variant(selections))
        },
    decreases files.len(),
{
    reveal(Seq::filter);
    let after = after_files(files, selections, reads);
    if files.len() == 0 {
        if let Ok(progress) = after {
            assert(progress.upstreams =~= upstreams_of(files, selections, reads));
            assert(progress.variant_providers =~= providers_where(files, is_variant_file()));
            assert(progress.selected =~= providers_where(files, is_wanted_variant(selections)));
        }
    } else {
        let (init, file) = (files.drop_last(), files.last());
        fine_files_are_all_taken_in(init, selections, reads);
        let n = files.len() - 1;
        assert(files[n] == file);
        if files_fine(files, selections, reads) {
            assert forall|i: int| 0 <= i < init.len() implies #[trigger] init[i] == files[i] by {}
            assert(files_fine(init, selections, reads));
            let before = after_files(init, selections, reads)->Ok_0;
            if wanted(file.name, selections) && has_provider(
                before.upstreams,
                names_of(file).0,
            ) {
                upstreams_are_sound(init, selections, reads);
                let i = choose|i: int|
                    0 <= i < before.upstreams.len() && (#[trigger] before.upstreams[i]).provider
                        == names_of(file).0;
                let k = choose|k: int|
                    0 <= k < init.len() && comes_from(
                        before.upstreams[i],
                        #[trigger] init[k],
                        selections,
                        reads,
                    );
                assert(files[k] == init[k]);
                assert(false);
            }
            assert(after is Ok);
        }
        if let Ok(progress) = after {
            let before = after_files(init, selections, reads)->Ok_0;
            progress_of_one_file(before, file, selections, reads);
            assert forall|i: int|
                0 <= i < files.len() && stem((#[trigger] files[i]).name) is Some implies valid_utf8(
                stem(files[i].name)->0,
            ) by {
                names_are_text(files, selections, reads, i);
            }
            assert forall|i: int|
                0 <= i < files.len() && wanted((#[trigger] files[i]).name, selections) implies reads(
                files[i],
            ) is Ok by {
                if i < n {
                    assert(init[i] == files[i]);
                }
            }
            assert forall|i: int, j: int|
                0 <= i < j < files.len() && wanted((#[trigger] files[i]).name, selections)
                    && wanted((#[trigger] files[j]).name, selections) implies names_of(files[i]).0
                != names_of(files[j]).0 by {
                wanted_providers_differ(files, selections, reads, i, j);
            }
            assert(files_fine(files, selections, reads));
            assert(progress.upstreams =~= upstreams_of(files, selections, reads));
            assert(progress.variant_providers =~= providers_where(files, is_variant_file()));
            assert(progress.selected =~= providers_where(files, is_wanted_variant(selections)));
        }
    }
}

/// What a load that succeeds gives: one upstream for each wanted file, in the order
/// of the files' names, with the provider of the file's name and all that the file
/// was read as.
pub proof fn wanted_files_become_the_upstreams(
    files: Seq<FileView>,
    selections: Seq<(Seq<char>, Seq<char>)>,
    reads: Reads,
)
    requires
        loaded(files, selections, reads) is Ok,
    ensures
        ({
            let found = by_name(files).filter(|file: FileView| wanted(file.name, selections));
            let upstreams = loaded(files, selections, reads)->Ok_0;
            &&& upstreams.len() == found.len()
            &&& forall|i: int|
                0 <= i < found.len() ==> {
                    &&& (#[trigger] upstreams[i]).provider == provider_and_variant(
                        decode_utf8(stem(found[i].name)->0),
                    ).0
                    &&& reads(found[i]) == Ok::<UpstreamFileView, Failure>(upstreams[i].file)
                }
        }),
{
    let sorted = by_name(files);
    fine_files_are_all_taken_in(sorted, selections, reads);
    let p = |file: FileView| wanted(file.name, selections);
    let found = sorted.filter(p);
    assert forall|i: int| 0 <= i < found.len() implies reads(#[trigger] found[i]) is Ok by {
        broadcast use vstd::seq_lib::group_filter_ensures;

        assert(p(found[i]));
        filtered_is_listed(sorted, p, i);
        let k = choose|k: int| 0 <= k < sorted.len() && sorted[k] == found[i];
        assert(wanted(sorted[k].name, selections));
    }
}

proof fn filtered_is_listed(files: Seq<FileView>, p: spec_fn(FileView) -> bool, i: int)
    requires
        0 <= i < files.filter(p).len(),
    ensures
        files.contains(files.filter(p)[i]),
    decreases files.len(),
{
    reveal(Seq::filter);
    let init = files.drop_last();
    if i < init.filter(p).len() {
        filtered_is_listed(init, p, i);
        let k = choose|k: int| 0 <= k < init.len() && init[k] == init.filter(p)[i];
        assert(files[k] == files.filter(p)[i]);
    } else {
        assert(files[files.len() - 1] == files.filter(p)[i]);
    }
}

proof fn provider_is_noted(
    files: Seq<FileView>,
    p: spec_fn(FileView) -> bool,
    provider: Seq<char>,
)
    ensures
        providers_where(files, p).contains(provider) <==> exists|k: int|
            0 <= k < files.len() && p(#[trigger] files[k]) && names_of(files[k]).0 == provider,
{
    broadcast use vstd::seq_lib::group_filter_ensures;

    let kept = files.filter(p);
    let all = providers_where(files, p);
    if all.contains(provider) {
        let i = choose|i: int| 0 <= i < all.len() && all[i] == provider;
        filtered_is_listed(files, p, i);
        assert(p(kept[i]));
        let k = choose|k: int| 0 <= k < files.len() && files[k] == kept[i];
        assert(p(files[k]));
    }
    if exists|k: int|
        0 <= k < files.len() && p(#[trigger] files[k]) && names_of(files[k]).0 == provider {
        let k = choose|k: int|
            0 <= k < files.len() && p(#[trigger] files[k]) && names_of(files[k]).0 == provider;
        assert(kept.contains(files[k]));
        let i = choose|i: int| 0 <= i < kept.len() && kept[i] == files[k];
        assert(all[i] == provider);
    }
}

/// When a load succeeds: every stem is text, no two wanted files are of one
/// provider, each wanted file can be read, each pair has the file of its variant,
/// and each provider with a variant file has a pair.
pub proof fn when_a_load_succeeds(
    files: Seq<FileView>,
    selections: Seq<(Seq<char>, Seq<char>)>,
    reads: Reads,
)
    ensures
        loaded(files, selections, reads) is Ok <==> {
            let sorted = by_name(files);
            &&& forall|i: int|
                0 <= i < sorted.len() && stem((#[trigger] sorted[i]).name) is Some ==> valid_utf8(
                    stem(sorted[i].name)->0,
                )
            &&& forall|i: int|
                0 <= i < sorted.len() && wanted((#[trigger] sorted[i]).name, selections) ==> reads(
                    sorted[i],
                ) is Ok
            &&& forall|i: int, j: int|
                0 <= i < j < sorted.len() && wanted((#[trigger] sorted[i]).name, selections)
                    && wanted((#[trigger] sorted[j]).name, selections) ==> names_of(sorted[i]).0
                    != names_of(sorted[j]).0
            &&& forall|i: int|
                0 <= i < selections.len() ==> exists|k: int|
                    0 <= k < sorted.len() && wanted((#[trigger] sorted[k]).name, selections)
                        && names_of(sorted[k]).1 is Some && names_of(sorted[k]).0 == (
                    #[trigger] selections[i]).0
            &&& forall|k: int|
                0 <= k < sorted.len() && stem((#[trigger] sorted[k]).name) is Some && names_of(
                    sorted[k],
                ).1 is Some ==> exists|i: int|
                    0 <= i < selections.len() && (#[trigger] selections[i]).0 == names_of(
                        sorted[k],
                    ).0
        },
{
    let sorted = by_name(files);
    let result = loaded(files, selections, reads);
    fine_files_are_all_taken_in(sorted, selections, reads);
    let variants = providers_where(sorted, is_variant_file());
    let met = providers_where(sorted, is_wanted_variant(selections));
    check_passes_when_complete(selections, variants, met);
    let each_pair_met = forall|i: int|
        0 <= i < selections.len() ==> exists|k: int|
            0 <= k < sorted.len() && wanted((#[trigger] sorted[k]).name, selections) && names_of(
                sorted[k],
            ).1 is Some && names_of(sorted[k]).0 == (#[trigger] selections[i]).0;
    let each_variant_chosen = forall|k: int|
        0 <= k < sorted.len() && stem((#[trigger] sorted[k]).name) is Some && names_of(
            sorted[k],
        ).1 is Some ==> exists|i: int|
            0 <= i < selections.len() && (#[trigger] selections[i]).0 == names_of(sorted[k]).0;
    if each_pair_met {
        assert forall|i: int| 0 <= i < selections.len() implies met.contains(
            (#[trigger] selections[i]).0,
        ) by {
            let k = choose|k: int|
                0 <= k < sorted.len() && wanted((#[trigger] sorted[k]).name, selections)
                    && names_of(sorted[k]).1 is Some && names_of(sorted[k]).0 == selections[i].0;
            assert(is_wanted_variant(selections)(sorted[k]));
            provider_is_noted(sorted, is_wanted_variant(selections), selections[i].0);
        }
    }
    if each_variant_chosen {
        assert forall|i: int| 0 <= i < variants.len() implies chosen(
            selections,
            #[trigger] variants[i],
        ) is Some by {
            assert(variants.contains(variants[i]));
            provider_is_noted(sorted, is_variant_file(), variants[i]);
            let k = choose|k: int|
                0 <= k < sorted.len() && is_variant_file()(#[trigger] sorted[k]) && names_of(
                    sorted[k],
                ).0 == variants[i];
            assert(stem(sorted[k].name) is Some);
            chosen_is_listed(selections, variants[i]);
        }
    }
    if result is Ok {
        assert forall|i: int| 0 <= i < selections.len() implies exists|k: int|
            0 <= k < sorted.len() && wanted((#[trigger] sorted[k]).name, selections) && names_of(
                sorted[k],
            ).1 is Some && names_of(sorted[k]).0 == (#[trigger] selections[i]).0 by {
            provider_is_noted(sorted, is_wanted_variant(selections), selections[i].0);
            let k = choose|k: int|
                0 <= k < sorted.len() && is_wanted_variant(selections)(#[trigger] sorted[k])
                    && names_of(sorted[k]).0 == selections[i].0;
            assert(wanted(sorted[k].name, selections));
        }
        assert forall|k: int|
            0 <= k < sorted.len() && stem((#[trigger] sorted[k]).name) is Some && names_of(
                sorted[k],
            ).1 is Some implies exists|i: int|
            0 <= i < selections.len() && (#[trigger] selections[i]).0 == names_of(sorted[k]).0 by {
            assert(is_variant_file()(sorted[k]));
            let p = names_of(sorted[k]).0;
            provider_is_noted(sorted, is_variant_file(), p);
            let j = choose|j: int| 0 <= j < variants.len() && variants[j] == p;
            assert(chosen(selections, variants[j]) is Some);
            chosen_is_listed(selections, p);
        }
    }
}

/// The first file that cannot be used decides what a load fails with: a stem that is
/// not text, a provider that an earlier wanted file is of, or what is wrong with
/// reading it.
pub proof fn first_bad_file_decides(
    files: Seq<FileView>,
    selections: Seq<(Seq<char>, Seq<char>)>,
    reads: Reads,
    k: int,
)
    requires
        0 <= k < by_name(files).len(),
        forall|i: int|
            0 <= i < k && stem((#[trigger] by_name(files)[i]).name) is Some ==> valid_utf8(
                stem(by_name(files)[i].name)->0,
            ),
        forall|i: int|
            0 <= i < k && wanted((#[trigger] by_name(files)[i]).name, selections) ==> reads(
                by_name(files)[i],
            ) is Ok,
        forall|i: int, j: int|
            0 <= i < j < k && wanted((#[trigger] by_name(files)[i]).name, selections) && wanted(
                (#[trigger] by_name(files)[j]).name,
                selections,
            ) ==> names_of(by_name(files)[i]).0 != names_of(by_name(files)[j]).0,
    ensures
        ({
            let file = by_name(files)[k];
            let result = loaded(files, selections, reads);
            let (provider, variant) = names_of(file);
            let doubled = exists|i: int|
                0 <= i < k && wanted((#[trigger] by_name(files)[i]).name, selections) && names_of(
                    by_name(files)[i],
                ).0 == provider;
            &&& stem(file.name) is Some && !valid_utf8(stem(file.name)->0) ==> result == Err::<
                Seq<UpstreamView>,
                Failure,
            >(Failure::NameNotUtf8 { path: file.path })
            &&& wanted(file.name, selections) && doubled ==> result == Err::<
                Seq<UpstreamView>,
                Failure,
            >(Failure::SeveralFiles { provider })
            &&& wanted(file.name, selections) && !doubled && reads(file) is Err ==> result == Err::<
                Seq<UpstreamView>,
                Failure,
            >(reads(file)->Err_0)
        }),
{
    let sorted = by_name(files);
    let head = sorted.take(k);
    let file = sorted[k];
    assert forall|i: int| 0 <= i < k implies #[trigger] head[i] == sorted[i] by {}
    assert(files_fine(head, selections, reads));
    fine_files_are_all_taken_in(head, selections, reads);
    let before = after_files(head, selections, reads)->Ok_0;
    let next = sorted.take(k + 1);
    assert(next.drop_last() =~= head);
    assert(next.last() == file);
    upstreams_are_sound(head, selections, reads);
    let provider = names_of(file).0;
    if exists|i: int|
        0 <= i < k && wanted((#[trigger] sorted[i]).name, selections) && names_of(sorted[i]).0
            == provider {
        let i = choose|i: int|
            0 <= i < k && wanted((#[trigger] sorted[i]).name, selections) && names_of(sorted[i]).0
                == provider;
        assert(loaded_from(before.upstreams, head[i], selections, reads));
        let j = choose|j: int|
            0 <= j < before.upstreams.len() && comes_from(
                #[trigger] before.upstreams[j],
                head[i],
                selections,
                reads,
            );
        assert(has_provider(before.upstreams, provider));
    } else if has_provider(before.upstreams, provider) {
        let j = choose|j: int|
            0 <= j < before.upstreams.len() && (#[trigger] before.upstreams[j]).provider
                == provider;
        let i = choose|i: int|
            0 <= i < head.len() && comes_from(
                before.upstreams[j],
                #[trigger] head[i],
                selections,
                reads,
            );
        assert(wanted(sorted[i].name, selections));
    }
    if after_files(next, selections, reads) is Err {
        failure_stays(sorted, selections, reads, k + 1);
    }
}

/// Where no file is at fault, a load fails for a selection only: with the pair of the
/// first provider whose variant has no file, else with the first provider that has
/// variant files and no pair.
pub proof fn selections_decide_last(
    files: Seq<FileView>,
    selections: Seq<(Seq<char>, Seq<char>)>,
    reads: Reads,
)
    requires
        files_fine(by_name(files), selections, reads),
    ensures
        match loaded(files, selections, reads) {
            Ok(_) => true,
            Err(Failure::NoSuchVariant { provider, variant }) => {
                &&& selections.contains((provider, variant))
                &&& !providers_where(by_name(files), is_wanted_variant(selections)).contains(
                    provider,
                )
            },
            Err(Failure::NotSelected { provider }) => {
                &&& forall|i: int| 0 <= i < selections.len() ==> (#[trigger] selections[i]).0 != provider
                &&& providers_where(by_name(files), is_variant_file()).contains(provider)
                &&& forall|i: int|
                    0 <= i < selections.len() ==> providers_where(
                        by_name(files),
                        is_wanted_variant(selections),
                    ).contains((#[trigger] selections[i]).0)
            },
            Err(_) => false,
        },
        loaded(files, selections, reads) matches Err(failure) ==> checked(
            selections,
            providers_where(by_name(files), is_variant_file()),
            providers_where(by_name(files), is_wanted_variant(selections)),
        ) == Err::<(), Failure>(failure),
{
    let sorted = by_name(files);
    fine_files_are_all_taken_in(sorted, selections, reads);
    failed_check_tells_the_first(
        selections,
        providers_where(sorted, is_variant_file()),
        providers_where(sorted, is_wanted_variant(selections)),
    );
}

/// With one pair for each provider, a load that succeeds has loaded the file
/// `provider.variant.yaml` of each pair, whatever the other pairs are.
pub proof fn each_pair_has_its_file(
    files: Seq<FileView>,
    selections: Seq<(Seq<char>, Seq<char>)>,
    reads: Reads,
    i: int,
)
    requires
        loaded(files, selections, reads) is Ok,
        0 <= i < selections.len(),
        forall|j: int, k: int|
            0 <= j < k < selections.len() ==> (#[trigger] selections[j]).0 != (
            #[trigger] selections[k]).0,
    ensures
        exists|k: int, n: int|
            {
                &&& 0 <= k < files.len()
                &&& 0 <= n < loaded(files, selections, reads)->Ok_0.len()
                &&& (#[trigger] files[k]).name == encode_utf8(
                    selections[i].0 + seq!['.'] + selections[i].1,
                ) + seq!['.' as u8, 'y' as u8, 'a' as u8, 'm' as u8, 'l' as u8]
                &&& (#[trigger] loaded(files, selections, reads)->Ok_0[n]).provider
                    == selections[i].0
                &&& reads(files[k]) == Ok::<UpstreamFileView, Failure>(
                    loaded(files, selections, reads)->Ok_0[n].file,
                )
            },
{
    let (provider, variant) = selections[i];
    let ups = loaded(files, selections, reads)->Ok_0;
    selections_are_met(files, selections, reads, i);
    each_pair_decides_for_its_provider(selections, i);
    let file = choose|file: FileView| #[trigger]
        files.contains(file) && is_choice(file, selections, provider) && loaded_from(
            ups,
            file,
            selections,
            reads,
        );
    let n = choose|n: int|
        0 <= n < ups.len() && comes_from(#[trigger] ups[n], file, selections, reads);
    let k = choose|k: int| 0 <= k < files.len() && files[k] == file;
    let before = stem(file.name)->0;
    stem_stands_before_yaml(file.name, before);
    stem_is_provider_dot_variant(decode_utf8(before));
    decode_utf8_encode_utf8(before);
    assert(files[k].name == encode_utf8(provider + seq!['.'] + variant) + seq![
        '.' as u8,
        'y' as u8,
        'a' as u8,
        'm' as u8,
        'l' as u8,
    ]);
    assert(ups[n].provider == provider);
}

/// The providers of the wanted files are those that the wanted files are named for.
pub proof fn wanted_files_name_the_providers(
    files: Seq<FileView>,
    selections: Seq<(Seq<char>, Seq<char>)>,
)
    ensures
        wanted_providers(files, selections) == files.filter(
            |file: FileView| wanted(file.name, selections),
        ).map_values(
            |file: FileView| provider_and_variant(decode_utf8(stem(file.name)->0)).0,
        ),
    decreases files.len(),
{
    reveal(Seq::filter);
    let p = |file: FileView| wanted(file.name, selections);
    let q = |file: FileView| provider_and_variant(decode_utf8(stem(file.name)->0)).0;
    if files.len() > 0 {
        wanted_files_name_the_providers(files.drop_last(), selections);
        assert(files.filter(p).map_values(q) =~= wanted_providers(files, selections));
    } else {
        assert(files.filter(p).map_values(q) =~= Seq::<Seq<char>>::empty());
    }
}

/// When slots are complete: they are those of a cloud upstream, they are disabled, or
/// they name a header for the key.
pub proof fn complete_slots(file: UpstreamFileView)
    ensures
        slots_complete(file) <==> {
            ||| file.slots is None
            ||| file.slots->0.cloud
            ||| file.slots->0.disabled
            ||| file.slots->0.auth_header is Some
        },
{
}

/// Which texts a reader is given: what the texts of wanted files can become.
pub proof fn texts_given(
    files: Seq<FileView>,
    selections: Seq<(Seq<char>, Seq<char>)>,
    can: Possible,
    text: Seq<char>,
)
    ensures
        given_by_files(files, selections, can)(text) <==> exists|k: int|
            {
                &&& 0 <= k < files.len()
                &&& wanted((#[trigger] files[k]).name, selections)
                &&& files[k].text is Ok
                &&& may_become(files[k].text->Ok_0, can, Ok(text))
            },
{
    if given_by_files(files, selections, can)(text) {
        let k = choose|k: int|
            0 <= k < files.len() && given_by(#[trigger] files[k], selections, can)(text);
        assert(wanted(files[k].name, selections));
    }
    if exists|k: int|
        {
            &&& 0 <= k < files.len()
            &&& wanted((#[trigger] files[k]).name, selections)
            &&& files[k].text is Ok
            &&& may_become(files[k].text->Ok_0, can, Ok(text))
        } {
        let k = choose|k: int|
            {
                &&& 0 <= k < files.len()
                &&& wanted((#[trigger] files[k]).name, selections)
                &&& files[k].text is Ok
                &&& may_become(files[k].text->Ok_0, can, Ok(text))
            };
        assert(given_by(files[k], selections, can)(text));
    }
}

/// A reader that can be given the texts in `given` can be used: nothing more is needed
/// of it.
pub proof fn texts_are_all_that_is_given<P: Fn(&str) -> Result<UpstreamFile, String>>(
    parse: P,
    given: Texts,
)
    requires
        forall|text: &str| given(text@) ==> #[trigger] call_requires(parse, (text,)),
    ensures
        may_give(parse, given),
{
}

/// The providers of the upstreams, one by one.
pub proof fn providers_one_by_one(upstreams: Seq<UpstreamView>, i: int)
    ensures
        providers(upstreams).len() == upstreams.len(),
        0 <= i < upstreams.len() ==> providers(upstreams)[i] == upstreams[i].provider,
{
}

/// A plain file beside a variant file of its provider makes a mixed directory.
pub proof fn plain_beside_variant_is_mixed(
    files: Seq<FileView>,
    plain: FileView,
    variant: FileView,
)
    requires
        files.contains(plain),
        files.contains(variant),
        stem(plain.name) is Some,
        stem(variant.name) is Some,
        names_of(plain).1 is None,
        names_of(variant).1 is Some,
        names_of(plain).0 == names_of(variant).0,
    ensures
        is_mixed(files),
{
}

/// Whatever a fickle lookup or reader says, a load that succeeds gives one upstream for
/// each wanted file, in the order of the files' names, with the provider of the file's
/// name and something that the file can be read as.
pub proof fn possible_load(
    files: Seq<FileView>,
    selections: Seq<(Seq<char>, Seq<char>)>,
    can: Possible,
    can_read: Readings,
    upstreams: Seq<UpstreamView>,
)
    requires
        may_load(files, selections, can, can_read, Ok(upstreams)),
    ensures
        ({
            let found = by_name(files).filter(|file: FileView| wanted(file.name, selections));
            &&& upstreams.len() == found.len()
            &&& forall|i: int|
                0 <= i < found.len() ==> {
                    &&& (#[trigger] upstreams[i]).provider == provider_and_variant(
                        decode_utf8(stem(found[i].name)->0),
                    ).0
                    &&& may_be_read_as(found[i], can, can_read, Ok(upstreams[i].file))
                }
        }),
{
    let sorted = by_name(files);
    let reads = choose|reads: Reads|
        {
            &&& reads_possible(sorted, files.len() as int, selections, can, can_read, reads)
            &&& Ok::<Seq<UpstreamView>, Failure>(upstreams) == #[trigger] loaded(
                files,
                selections,
                reads,
            )
        };
    sorted_has_as_many(files);
    wanted_files_become_the_upstreams(files, selections, reads);
    let p = |file: FileView| wanted(file.name, selections);
    let found = sorted.filter(p);
    assert forall|i: int| 0 <= i < found.len() implies (#[trigger] upstreams[i]).provider
        == provider_and_variant(decode_utf8(stem(found[i].name)->0)).0 && may_be_read_as(
        found[i],
        can,
        can_read,
        Ok(upstreams[i].file),
    ) by {
        broadcast use vstd::seq_lib::group_filter_ensures;

        assert(p(found[i]));
        filtered_is_listed(sorted, p, i);
        let k = choose|k: int| 0 <= k < sorted.len() && sorted[k] == found[i];
        wanted_files_are_read(sorted, selections, reads, k);
        assert(may_be_read_as(sorted[k], can, can_read, reads(sorted[k])));
    }
}

/// Where the load of some files fails, the file that is at fault.
proof fn fault_of_a_file(
    files: Seq<FileView>,
    selections: Seq<(Seq<char>, Seq<char>)>,
    reads: Reads,
) -> (k: int)
    requires
        after_files(files, selections, reads) is Err,
    ensures
        0 <= k < files.len(),
        ({
            let failure = after_files(files, selections, reads)->Err_0;
            ||| stem(files[k].name) is Some && !valid_utf8(stem(files[k].name)->0) && failure == (
            Failure::NameNotUtf8 { path: files[k].path })
            ||| wanted(files[k].name, selections) && failure == (Failure::SeveralFiles {
                provider: names_of(files[k]).0,
            }) && exists|i: int|
                0 <= i < k && wanted((#[trigger] files[i]).name, selections) && names_of(
                    files[i],
                ).0 == names_of(files[k]).0
            ||| is_read(files, selections, reads, k) && reads(files[k]) == Err::<
                UpstreamFileView,
                Failure,
            >(failure)
        }),
    decreases files.len(),
{
    let (init, file) = (files.drop_last(), files.last());
    let n = files.len() - 1;
    if after_files(init, selections, reads) is Err {
        let k = fault_of_a_file(init, selections, reads);
        assert(init[k] == files[k]);
        assert(init.take(k) =~= files.take(k));
        if exists|i: int|
            0 <= i < k && wanted((#[trigger] init[i]).name, selections) && names_of(init[i]).0
                == names_of(init[k]).0 {
            let i = choose|i: int|
                0 <= i < k && wanted((#[trigger] init[i]).name, selections) && names_of(init[i]).0
                    == names_of(init[k]).0;
            assert(init[i] == files[i]);
        }
        k
    } else {
        let before = after_files(init, selections, reads)->Ok_0;
        assert(files.take(n) =~= init);
        assert(files[n] == file);
        upstreams_are_sound(init, selections, reads);
        if wanted(file.name, selections) && has_provider(before.upstreams, names_of(file).0) {
            let j = choose|j: int|
                0 <= j < before.upstreams.len() && (#[trigger] before.upstreams[j]).provider
                    == names_of(file).0;
            let i = choose|i: int|
                0 <= i < init.len() && comes_from(
                    before.upstreams[j],
                    #[trigger] init[i],
                    selections,
                    reads,
                );
            assert(files[i] == init[i]);
            assert(wanted(files[i].name, selections));
        }
        n
    }
}

/// Whatever a fickle lookup or reader says, a load fails only for a stem that is not
/// text, for two wanted files of one provider, for something that is wrong with
/// reading a wanted file, for a pair, or for a provider with variant files and no pair.
pub proof fn possible_load_failure(
    files: Seq<FileView>,
    selections: Seq<(Seq<char>, Seq<char>)>,
    can: Possible,
    can_read: Readings,
    failure: Failure,
)
    requires
        may_load(files, selections, can, can_read, Err(failure)),
    ensures
        ({
            let sorted = by_name(files);
            ||| exists|k: int|
                {
                    &&& 0 <= k < sorted.len()
                    &&& stem((#[trigger] sorted[k]).name) is Some
                    &&& !valid_utf8(stem(sorted[k].name)->0)
                    &&& failure == (Failure::NameNotUtf8 { path: sorted[k].path })
                }
            ||| exists|i: int, k: int|
                {
                    &&& 0 <= i < k < sorted.len()
                    &&& wanted((#[trigger] sorted[i]).name, selections)
                    &&& wanted((#[trigger] sorted[k]).name, selections)
                    &&& names_of(sorted[i]).0 == names_of(sorted[k]).0
                    &&& failure == (Failure::SeveralFiles { provider: names_of(sorted[k]).0 })
                }
            ||| exists|k: int|
                {
                    &&& 0 <= k < sorted.len()
                    &&& wanted((#[trigger] sorted[k]).name, selections)
                    &&& may_be_read_as(sorted[k], can, can_read, Err(failure))
                }
            ||| failure matches Failure::NoSuchVariant { provider, variant }
                && selections.contains((provider, variant)) && forall|k: int|
                0 <= k < sorted.len() && wanted((#[trigger] sorted[k]).name, selections)
                    && names_of(sorted[k]).1 is Some ==> names_of(sorted[k]).0 != provider
            ||| failure matches Failure::NotSelected { provider } && chosen(
                selections,
                provider,
            ) is None && exists|k: int|
                {
                    &&& 0 <= k < sorted.len()
                    &&& stem((#[trigger] sorted[k]).name) is Some
                    &&& names_of(sorted[k]).1 is Some
                    &&& names_of(sorted[k]).0 == provider
                }
        }),
{
    let sorted = by_name(files);
    let reads = choose|reads: Reads|
        {
            &&& reads_possible(sorted, files.len() as int, selections, can, can_read, reads)
            &&& Err::<Seq<UpstreamView>, Failure>(failure) == #[trigger] loaded(
                files,
                selections,
                reads,
            )
        };
    sorted_has_as_many(files);
    if after_files(sorted, selections, reads) is Err {
        let k = fault_of_a_file(sorted, selections, reads);
        if is_read(sorted, selections, reads, k) {
            assert(may_be_read_as(sorted[k], can, can_read, reads(sorted[k])));
            assert(wanted(sorted[k].name, selections));
        }
    } else {
        fine_files_are_all_taken_in(sorted, selections, reads);
        selections_decide_last(files, selections, reads);
        if let Failure::NoSuchVariant { provider, variant } = failure {
            provider_is_noted(sorted, is_wanted_variant(selections), provider);
            assert forall|k: int|
                0 <= k < sorted.len() && wanted((#[trigger] sorted[k]).name, selections)
                    && names_of(sorted[k]).1 is Some implies names_of(sorted[k]).0 != provider by {
                assert(is_wanted_variant(selections)(sorted[k]));
            }
        }
        if let Failure::NotSelected { provider } = failure {
            provider_is_noted(sorted, is_variant_file(), provider);
            chosen_is_listed(selections, provider);
            let k = choose|k: int|
                0 <= k < sorted.len() && is_variant_file()(#[trigger] sorted[k]) && names_of(
                    sorted[k],
                ).0 == provider;
            assert(stem(sorted[k].name) is Some);
        }
    }
}

} // verus!
