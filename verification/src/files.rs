//! The files of a template directory: their names and their order.

use vstd::prelude::*;
use vstd::utf8::*;

use crate::selection::{chosen, pairs, selected_variant};
use crate::text::{
    bytes_before, bytes_before_is_total, bytes_before_is_transitive, bytes_less, characters, decode,
    gather, until, until_finds, until_is,
};

verus! {

/// A file: its name in its directory, the path by which messages name it, and
/// its text, or why it could not be read.
#[derive(Debug)]
pub struct TemplateFile {
    pub name: Vec<u8>,
    pub path: String,
    pub text: Result<String, String>,
}

/// The model of a [`TemplateFile`].
pub struct FileView {
    pub name: Seq<u8>,
    pub path: Seq<char>,
    pub text: Result<Seq<char>, Seq<char>>,
}

impl View for TemplateFile {
    type V = FileView;

    open spec fn view(&self) -> FileView {
        FileView {
            name: self.name@,
            path: self.path@,
            text: match self.text {
                Ok(text) => Ok(text@),
                Err(cause) => Err(cause@),
            },
        }
    }
}

/// The models of a list of files.
pub open spec fn file_views(files: Seq<TemplateFile>) -> Seq<FileView> {
    Seq::new(files.len(), |i: int| files[i]@)
}

/// The bytes of `.yaml`.
pub const YAML_SUFFIX: [u8; 5] = [46, 121, 97, 109, 108];

/// What stands before `.yaml` in the name of an upstream file. Another file has
/// none, and neither has one whose whole name is `.yaml`.
pub open spec fn stem(name: Seq<u8>) -> Option<Seq<u8>> {
    if name.len() > 5 && name.skip(name.len() - 5) == YAML_SUFFIX@ {
        Some(name.take(name.len() - 5))
    } else {
        None
    }
}

/// The provider that a stem names, and the variant where it names one: what
/// stands before and behind the first dot.
pub open spec fn provider_and_variant(stem: Seq<char>) -> (Seq<char>, Option<Seq<char>>) {
    let n = until(stem, '.');
    if n == stem.len() {
        (stem, None)
    } else {
        (stem.take(n as int), Some(stem.skip(n as int + 1)))
    }
}

/// The file is an upstream file, and no selection passes over it.
pub open spec fn wanted(name: Seq<u8>, selections: Seq<(Seq<char>, Seq<char>)>) -> bool {
    match stem(name) {
        Some(bytes) => {
            let (provider, variant) = provider_and_variant(decode_utf8(bytes));
            valid_utf8(bytes) && (variant is Some ==> chosen(selections, provider) == variant)
        },
        None => false,
    }
}

/// The length of the stem of an upstream file's name.
pub(crate) fn stem_len(name: &[u8]) -> (r: Option<usize>)
    ensures
        match r {
            Some(n) => n <= name@.len() && stem(name@) == Some(name@.take(n as int)),
            None => stem(name@) is None,
        },
{
    if name.len() <= 5 {
        return None;
    }
    let n = name.len() - 5;
    let mut i: usize = 0;
    while i < 5
        invariant
            i <= 5,
            n + 5 == name.len(),
            forall|j: int| 0 <= j < i ==> name@.skip(n as int)[j] == YAML_SUFFIX@[j],
        decreases 5 - i,
    {
        if name[n + i] != YAML_SUFFIX[i] {
            assert(name@.skip(n as int)[i as int] != YAML_SUFFIX@[i as int]);
            return None;
        }
        i += 1;
    }
    assert(name@.skip(n as int) =~= YAML_SUFFIX@);
    Some(n)
}

/// The stem of an upstream file's name, if the file is one: as text, or as
/// nothing where it is not UTF-8.
pub(crate) fn stem_text(name: &Vec<u8>) -> (r: Option<Option<String>>)
    ensures
        match (r, stem(name@)) {
            (None, None) => true,
            (Some(None), Some(bytes)) => !valid_utf8(bytes),
            (Some(Some(text)), Some(bytes)) => valid_utf8(bytes) && text@ == decode_utf8(bytes),
            _ => false,
        },
{
    match stem_len(name.as_slice()) {
        Some(n) => {
            let (head, _) = name.as_slice().split_at(n);
            assert(head@ =~= name@.take(n as int));
            Some(decode(head))
        },
        None => None,
    }
}

/// The provider that a stem names, and the variant where it names one.
pub(crate) fn split_stem(stem: &str) -> (r: (String, Option<String>))
    ensures
        (r.0@, crate::text::opt_text(r.1)) == provider_and_variant(stem@),
{
    let cs = characters(stem);
    let mut n: usize = 0;
    while n < cs.len() && cs[n] != '.'
        invariant
            n <= cs@.len(),
            forall|i: int| 0 <= i < n ==> cs@[i] != '.',
        decreases cs@.len() - n,
    {
        n += 1;
    }
    proof {
        until_is(cs@, '.', n as nat);
    }
    let provider = gather(&cs, 0, n);
    assert(cs@.subrange(0, n as int) =~= cs@.take(n as int));
    if n == cs.len() {
        assert(cs@.take(n as int) =~= cs@);
        (provider, None)
    } else {
        assert(cs@.subrange(n + 1, cs@.len() as int) =~= cs@.skip(n + 1));
        (provider, Some(gather(&cs, n + 1, cs.len())))
    }
}

/// Whether a file of the upstream directory is one to read: an upstream file
/// that no selection passes over.
pub fn is_wanted(name: &Vec<u8>, selections: &Vec<(String, String)>) -> (r: bool)
    ensures
        r == wanted(name@, pairs(selections@)),
{
    match stem_text(name) {
        Some(Some(stem)) => {
            let (provider, variant) = split_stem(&stem);
            match variant {
                Some(variant) => match selected_variant(selections, &provider) {
                    Some(selection) => *selection == variant,
                    None => false,
                },
                None => true,
            }
        },
        _ => false,
    }
}

/// The files with `file` among them, before the first that its name comes
/// before.
pub open spec fn placed(sorted: Seq<FileView>, file: FileView) -> Seq<FileView>
    decreases sorted.len(),
{
    if sorted.len() > 0 && bytes_before(file.name, sorted.last().name) {
        placed(sorted.drop_last(), file).push(sorted.last())
    } else {
        sorted.push(file)
    }
}

/// The files in the order of their names.
pub open spec fn by_name(files: Seq<FileView>) -> Seq<FileView>
    decreases files.len(),
{
    if files.len() == 0 {
        Seq::empty()
    } else {
        placed(by_name(files.drop_last()), files.last())
    }
}

/// The models of a list of borrowed files.
pub(crate) open spec fn ref_views(files: Seq<&TemplateFile>) -> Seq<FileView> {
    Seq::new(files.len(), |i: int| files[i]@)
}

proof fn placed_is_insert(sorted: Seq<FileView>, file: FileView, at: int)
    requires
        0 <= at <= sorted.len(),
        forall|i: int| at <= i < sorted.len() ==> bytes_before(file.name, (#[trigger] sorted[i]).name),
        at > 0 ==> !bytes_before(file.name, sorted[at - 1].name),
    ensures
        placed(sorted, file) == sorted.insert(at, file),
    decreases sorted.len(),
{
    if at < sorted.len() {
        let init = sorted.drop_last();
        placed_is_insert(init, file, at);
        assert(init.insert(at, file).push(sorted.last()) =~= sorted.insert(at, file));
    } else {
        assert(sorted.push(file) =~= sorted.insert(at, file));
    }
}

/// Puts the files in the order of their names.
pub(crate) fn sort_by_name(files: &Vec<TemplateFile>) -> (r: Vec<&TemplateFile>)
    ensures
        ref_views(r@) == by_name(file_views(files@)),
{
    let ghost all = file_views(files@);
    let mut out: Vec<&TemplateFile> = Vec::new();
    let mut i: usize = 0;
    assert(ref_views(out@) =~= by_name(all.take(0)));
    while i < files.len()
        invariant
            i <= files@.len(),
            all == file_views(files@),
            ref_views(out@) == by_name(all.take(i as int)),
        decreases files@.len() - i,
    {
        let ghost before = ref_views(out@);
        let file = &files[i];
        let mut at: usize = out.len();
        while at > 0 && bytes_less(file.name.as_slice(), out[at - 1].name.as_slice())
            invariant
                at <= out@.len(),
                before == ref_views(out@),
                forall|j: int|
                    at <= j < out@.len() ==> bytes_before(file@.name, (#[trigger] before[j]).name),
            decreases at,
        {
            at -= 1;
            assert(before[at as int].name == out@[at as int].name@);
        }
        proof {
            if at > 0 {
                assert(before[at - 1].name == out@[at - 1].name@);
            }
            placed_is_insert(before, file@, at as int);
            assert(all.take(i + 1).drop_last() =~= all.take(i as int));
            assert(all.take(i + 1).last() == file@);
        }
        out.insert(at, file);
        assert(ref_views(out@) =~= before.insert(at as int, file@));
        i += 1;
    }
    assert(all.take(i as int) =~= all);
    out
}

/// No file stands behind one that its name comes before.
pub open spec fn in_order(files: Seq<FileView>) -> bool {
    forall|i: int, j: int|
        0 <= i < j < files.len() ==> !bytes_before((#[trigger] files[j]).name, (#[trigger] files[i]).name)
}

proof fn placed_facts(sorted: Seq<FileView>, file: FileView)
    requires
        in_order(sorted),
    ensures
        in_order(placed(sorted, file)),
        placed(sorted, file).to_multiset() == sorted.to_multiset().insert(file),
        forall|i: int|
            0 <= i < placed(sorted, file).len() ==> (#[trigger] placed(sorted, file)[i]) == file
                || sorted.contains(placed(sorted, file)[i]),
    decreases sorted.len(),
{
    broadcast use vstd::seq_lib::group_to_multiset_ensures;

    let now = placed(sorted, file);
    if sorted.len() > 0 && bytes_before(file.name, sorted.last().name) {
        let (init, last) = (sorted.drop_last(), sorted.last());
        placed_facts(init, file);
        let rest = placed(init, file);
        assert(sorted =~= init.push(last));
        assert(now.to_multiset() =~= sorted.to_multiset().insert(file));
        assert forall|i: int| 0 <= i < rest.len() implies !bytes_before(
            last.name,
            (#[trigger] rest[i]).name,
        ) by {
            if rest[i] == file {
                bytes_before_is_total(file.name, last.name);
            } else {
                let j = choose|j: int| 0 <= j < init.len() && init[j] == rest[i];
                assert(sorted[j] == rest[i] && sorted[sorted.len() - 1] == last);
            }
        }
        assert forall|i: int| 0 <= i < now.len() implies (#[trigger] now[i]) == file
            || sorted.contains(now[i]) by {
            if i < rest.len() {
                assert(now[i] == rest[i]);
                if rest[i] != file {
                    let j = choose|j: int| 0 <= j < init.len() && init[j] == rest[i];
                    assert(sorted[j] == rest[i]);
                }
            } else {
                assert(sorted[sorted.len() - 1] == now[i]);
            }
        }
    } else {
        assert forall|i: int| 0 <= i < sorted.len() implies !bytes_before(
            file.name,
            (#[trigger] sorted[i]).name,
        ) by {
            let last = sorted[sorted.len() - 1];
            if bytes_before(file.name, sorted[i].name) && i < sorted.len() - 1 {
                bytes_before_is_total(sorted[i].name, last.name);
                if sorted[i].name != last.name {
                    bytes_before_is_transitive(file.name, sorted[i].name, last.name);
                }
            }
        }
    }
}

/// Sorting puts the files in the order of their names, and keeps each of them.
pub proof fn sorting_orders_the_files(files: Seq<FileView>)
    ensures
        in_order(by_name(files)),
        by_name(files).to_multiset() == files.to_multiset(),
    decreases files.len(),
{
    broadcast use vstd::seq_lib::group_to_multiset_ensures;

    if files.len() > 0 {
        sorting_orders_the_files(files.drop_last());
        placed_facts(by_name(files.drop_last()), files.last());
        assert(files =~= files.drop_last().push(files.last()));
    } else {
        assert(by_name(files) =~= files);
    }
}

/// No two files have the same name.
pub open spec fn names_distinct(files: Seq<FileView>) -> bool {
    forall|i: int, j: int|
        0 <= i < j < files.len() ==> (#[trigger] files[i]).name != (#[trigger] files[j]).name
}

/// In two orderly lists of the same files, the last is the same.
proof fn same_last(a: Seq<FileView>, b: Seq<FileView>)
    requires
        in_order(a),
        in_order(b),
        names_distinct(a),
        a.to_multiset() == b.to_multiset(),
        a.len() > 0,
    ensures
        b.len() == a.len(),
        a.last() == b.last(),
{
    broadcast use vstd::seq_lib::group_to_multiset_ensures;

    assert(a.len() == a.to_multiset().len() && b.len() == b.to_multiset().len());
    let (x, y) = (a.last(), b.last());
    assert(a[a.len() - 1] == x && a.contains(x));
    assert(b[b.len() - 1] == y && b.contains(y));
    assert(a.to_multiset().count(x) > 0 && b.to_multiset().count(y) > 0);
    assert(b.contains(x) && a.contains(y));
    let i = choose|i: int| 0 <= i < b.len() && b[i] == x;
    let j = choose|j: int| 0 <= j < a.len() && a[j] == y;
    if x != y {
        assert(a[j].name != a[a.len() - 1].name);
        bytes_before_is_total(x.name, y.name);
    }
}

proof fn orderly_lists_are_equal(a: Seq<FileView>, b: Seq<FileView>)
    requires
        in_order(a),
        in_order(b),
        names_distinct(a),
        a.to_multiset() == b.to_multiset(),
    ensures
        a == b,
    decreases a.len(),
{
    broadcast use vstd::seq_lib::group_to_multiset_ensures;

    assert(a.len() == a.to_multiset().len() && b.len() == b.to_multiset().len());
    if a.len() == 0 {
        assert(a =~= b);
    } else {
        same_last(a, b);
        let (x, y) = (a.drop_last(), b.drop_last());
        assert(a =~= x.push(a.last()) && b =~= y.push(b.last()));
        assert(a.to_multiset() =~= x.to_multiset().insert(a.last()));
        assert(b.to_multiset() =~= y.to_multiset().insert(b.last()));
        assert(x.to_multiset() =~= a.to_multiset().remove(a.last()));
        assert(y.to_multiset() =~= b.to_multiset().remove(b.last()));
        orderly_lists_are_equal(x, y);
    }
}

proof fn names_stay_distinct(a: Seq<FileView>, b: Seq<FileView>)
    requires
        names_distinct(a),
        a.to_multiset() == b.to_multiset(),
    ensures
        names_distinct(b),
{
    broadcast use vstd::seq_lib::group_to_multiset_ensures;

    assert(a.no_duplicates());
    a.lemma_multiset_has_no_duplicates();
    assert forall|i: int, j: int| 0 <= i < j < b.len() implies (#[trigger] b[i]).name != (
    #[trigger] b[j]).name by {
        let (x, y) = (b[i], b[j]);
        assert(b.contains(x) && b.contains(y));
        assert(b.to_multiset().count(x) > 0 && b.to_multiset().count(y) > 0);
        assert(a.contains(x) && a.contains(y));
        if x.name == y.name {
            let k = choose|k: int| 0 <= k < a.len() && a[k] == x;
            let l = choose|l: int| 0 <= l < a.len() && a[l] == y;
            if k < l {
                assert(a[k].name != a[l].name);
            } else if l < k {
                assert(a[l].name != a[k].name);
            }
            assert(x == y);
            assert(b.to_multiset().count(x) <= 1);
            let rest = b.remove(j);
            assert(b.to_multiset() =~= rest.to_multiset().insert(y));
            assert(rest[i] == x);
            assert(rest.contains(x));
            assert(rest.to_multiset().count(x) > 0);
        }
    }
}

/// Two orderly lists with the same files are the same.
pub(crate) proof fn same_files_same_list(a: Seq<FileView>, b: Seq<FileView>)
    requires
        in_order(a),
        in_order(b),
        names_distinct(a),
        names_distinct(b),
        forall|file: FileView| #[trigger] a.contains(file) <==> b.contains(file),
    ensures
        a == b,
{
    broadcast use vstd::seq_lib::group_to_multiset_ensures;

    assert(a.no_duplicates() && b.no_duplicates());
    a.lemma_multiset_has_no_duplicates();
    b.lemma_multiset_has_no_duplicates();
    assert(a.to_multiset() =~= b.to_multiset()) by {
        assert forall|file: FileView| a.to_multiset().count(file) == b.to_multiset().count(
            file,
        ) by {
            assert(a.contains(file) <==> a.to_multiset().count(file) > 0);
            assert(b.contains(file) <==> b.to_multiset().count(file) > 0);
        }
    }
    orderly_lists_are_equal(a, b);
}

/// Sorted files have distinct names where the files have.
pub(crate) proof fn sorted_names_are_distinct(files: Seq<FileView>)
    requires
        names_distinct(files),
    ensures
        names_distinct(by_name(files)),
{
    sorting_orders_the_files(files);
    names_stay_distinct(files, by_name(files));
}

/// The order in which a directory lists its files does not matter.
pub proof fn listing_order_does_not_matter(a: Seq<FileView>, b: Seq<FileView>)
    requires
        names_distinct(a),
        a.to_multiset() == b.to_multiset(),
    ensures
        by_name(a) == by_name(b),
{
    sorting_orders_the_files(a);
    sorting_orders_the_files(b);
    names_stay_distinct(a, by_name(a));
    orderly_lists_are_equal(by_name(a), by_name(b));
}

/// An upstream file is named by what stands before `.yaml`, whatever that is but
/// nothing; a name with another ending is not one of an upstream file.
pub proof fn stem_stands_before_yaml(name: Seq<u8>, before: Seq<u8>)
    ensures
        stem(name) == Some(before) <==> before.len() > 0 && name == before + seq![
            '.' as u8,
            'y' as u8,
            'a' as u8,
            'm' as u8,
            'l' as u8,
        ],
{
    let suffix = seq!['.' as u8, 'y' as u8, 'a' as u8, 'm' as u8, 'l' as u8];
    assert(YAML_SUFFIX@ =~= suffix);
    if stem(name) == Some(before) {
        assert(name =~= before + suffix);
    }
    if before.len() > 0 && name == before + suffix {
        assert(name.skip(name.len() - 5) =~= suffix);
        assert(name.take(name.len() - 5) =~= before);
    }
}

/// The first dot of a stem parts the provider from the variant, and a stem without
/// one is a provider.
pub proof fn first_dot_parts_provider_and_variant(provider: Seq<char>, variant: Seq<char>)
    requires
        !provider.contains('.'),
    ensures
        provider_and_variant(provider) == (provider, None::<Seq<char>>),
        provider_and_variant(provider + seq!['.'] + variant) == (provider, Some(variant)),
{
    let n = provider.len();
    let s = provider + seq!['.'] + variant;
    assert forall|i: int| 0 <= i < n implies provider[i] != '.' && s[i] != '.' by {
        assert(provider.contains(provider[i]));
        assert(s[i] == provider[i]);
    }
    until_is(provider, '.', n);
    until_is(s, '.', n);
    assert(s.take(n as int) =~= provider);
    assert(s.skip(n as int + 1) =~= variant);
}

/// What a stem names is all that it holds.
pub proof fn stem_is_provider_dot_variant(stem: Seq<char>)
    ensures
        match provider_and_variant(stem) {
            (provider, None) => stem == provider && !stem.contains('.'),
            (provider, Some(variant)) => stem == provider + seq!['.'] + variant
                && !provider.contains('.'),
        },
    decreases stem.len(),
{
    let n = until(stem, '.');
    until_finds(stem, '.');
    if n < stem.len() {
        let (provider, variant) = (stem.take(n as int), stem.skip(n as int + 1));
        assert(stem =~= provider + seq!['.'] + variant);
    }
}

/// The file of a provider without variants is always wanted; that of a variant is
/// wanted exactly where the selections choose it.
pub proof fn wanted_files(
    provider: Seq<char>,
    variant: Seq<char>,
    selections: Seq<(Seq<char>, Seq<char>)>,
)
    requires
        !provider.contains('.'),
    ensures
        ({
            let yaml = seq!['.' as u8, 'y' as u8, 'a' as u8, 'm' as u8, 'l' as u8];
            &&& provider.len() > 0 ==> wanted(encode_utf8(provider) + yaml, selections)
            &&& wanted(encode_utf8(provider + seq!['.'] + variant) + yaml, selections) <==> chosen(
                selections,
                provider,
            ) == Some(variant)
        }),
{
    broadcast use {encode_utf8_decode_utf8, encode_utf8_valid_utf8};

    let yaml = seq!['.' as u8, 'y' as u8, 'a' as u8, 'm' as u8, 'l' as u8];
    let full = provider + seq!['.'] + variant;
    first_dot_parts_provider_and_variant(provider, variant);
    if provider.len() > 0 {
        encoding_is_not_empty(provider);
        stem_stands_before_yaml(encode_utf8(provider) + yaml, encode_utf8(provider));
    }
    encoding_is_not_empty(full);
    stem_stands_before_yaml(encode_utf8(full) + yaml, encode_utf8(full));
}

proof fn encoding_is_not_empty(s: Seq<char>)
    requires
        s.len() > 0,
    ensures
        encode_utf8(s).len() > 0,
{
    broadcast use encode_utf8_decode_utf8;

    if encode_utf8(s).len() == 0 {
        assert(encode_utf8(s) =~= Seq::<u8>::empty());
        assert(decode_utf8(encode_utf8(s)).len() == 0);
    }
}

/// A file with another name, or whose stem is not text, is not wanted.
pub proof fn other_files_are_not_wanted(
    name: Seq<u8>,
    selections: Seq<(Seq<char>, Seq<char>)>,
)
    ensures
        wanted(name, selections) ==> {
            let before = name.take(name.len() - 5);
            &&& name.len() > 5
            &&& name == before + seq!['.' as u8, 'y' as u8, 'a' as u8, 'm' as u8, 'l' as u8]
            &&& valid_utf8(before)
        },
{
    if wanted(name, selections) {
        stem_stands_before_yaml(name, stem(name)->0);
    }
}

/// The files are taken by their names: of two, the one whose name comes first in
/// the order of bytes is taken first, and each is taken as often as it is listed.
pub proof fn files_are_taken_by_their_names(files: Seq<FileView>, i: int, j: int)
    requires
        0 <= i < j < by_name(files).len(),
    ensures
        by_name(files)[i].name == by_name(files)[j].name || bytes_before(
            by_name(files)[i].name,
            by_name(files)[j].name,
        ),
        by_name(files).to_multiset() == files.to_multiset(),
{
    sorting_orders_the_files(files);
    let (a, b) = (by_name(files)[i].name, by_name(files)[j].name);
    assert(!bytes_before(b, a));
    bytes_before_is_total(a, b);
}

/// The model of a file holds its name, its path and its text.
pub proof fn file_is_kept(file: TemplateFile)
    ensures
        file@.name == file.name@,
        file@.path == file.path@,
        file.text matches Ok(text) ==> file@.text == Ok::<Seq<char>, Seq<char>>(text@),
        file.text matches Err(cause) ==> file@.text == Err::<Seq<char>, Seq<char>>(cause@),
{
}

/// The models of files are those of each of them.
pub proof fn files_are_kept(files: Seq<TemplateFile>, i: int)
    requires
        0 <= i < files.len(),
    ensures
        file_views(files).len() == files.len(),
        file_views(files)[i] == files[i]@,
{
}

} // verus!
