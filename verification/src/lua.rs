//! The `slot_config` table of the Lua filter.

use vstd::prelude::*;
use vstd::string::*;

use crate::text::{
    characters, decimal, digit, digit_char, gather, opt_text, texts, to_decimal, until, until_bounds,
    until_is,
};
use crate::tokens::{looks_up, may_ask, possible, Answers, Names, Possible};
use crate::upstream::{upstream_views, Slots, SlotsView, Upstream, UpstreamView};

verus! {

/// An ASCII control character.
pub open spec fn is_control(c: char) -> bool {
    c < ' ' || c == '\x7f'
}

/// How `c` stands in a quoted Lua string.
pub open spec fn escaped(c: char) -> Seq<char> {
    if c == '\\' || c == '"' {
        seq!['\\', c]
    } else if is_control(c) {
        let n = c as int;
        seq!['\\', digit(n / 100), digit(n / 10 % 10), digit(n % 10)]
    } else {
        seq![c]
    }
}

/// How the characters of `s` stand in a quoted Lua string.
pub open spec fn all_escaped(s: Seq<char>) -> Seq<char>
    decreases s.len(),
{
    if s.len() == 0 {
        Seq::empty()
    } else {
        escaped(s[0]) + all_escaped(s.skip(1))
    }
}

/// `s` as a quoted Lua string.
pub open spec fn lua_quoted(s: Seq<char>) -> Seq<char> {
    seq!['"'] + all_escaped(s) + seq!['"']
}

/// Appends `c` as it stands in a quoted Lua string.
fn push_escaped(out: &mut String, c: char)
    ensures
        final(out)@ == old(out)@ + escaped(c),
{
    if c == '\\' || c == '"' {
        out.push('\\');
        out.push(c);
    } else if c < ' ' || c == '\x7f' {
        let code: u32 = c as u32;
        let n: usize = code as usize;
        out.push('\\');
        out.push(digit_char(n / 100));
        out.push(digit_char(n / 10 % 10));
        out.push(digit_char(n % 10));
    } else {
        out.push(c);
    }
    assert(out@ =~= old(out)@ + escaped(c));
}

/// Writes `value` as a quoted Lua string.
pub fn lua_string(value: &str) -> (r: String)
    ensures
        r@ == lua_quoted(value@),
{
    let mut out = String::new();
    out.push('"');
    let ghost s = value@;
    proof {
        assert(s.skip(0) =~= s);
    }
    for c in it: value.chars()
        invariant
            it.seq() == s,
            seq!['"'] + all_escaped(s) == out@ + all_escaped(s.skip(it.index() as int)),
    {
        let ghost before = out@;
        let ghost i = it.index() as int;
        push_escaped(&mut out, c);
        proof {
            assert(s.skip(i).skip(1) =~= s.skip(i + 1));
            assert(before + (escaped(c) + all_escaped(s.skip(i + 1))) =~= out@ + all_escaped(
                s.skip(i + 1),
            ));
        }
    }
    assert(s.skip(s.len() as int) =~= Seq::<char>::empty());
    out.push('"');
    assert(out@ =~= lua_quoted(s));
    out
}

/// `c`, as a capital where it is a small ASCII letter.
pub open spec fn upper_char(c: char) -> char {
    if 'a' <= c <= 'z' {
        (c as int - 32) as char
    } else {
        c
    }
}

/// `s` with its ASCII letters as capitals.
pub open spec fn upper(s: Seq<char>) -> Seq<char> {
    Seq::new(s.len(), |i: int| upper_char(s[i]))
}

/// What the names of a provider's variables start with.
pub open spec fn variable_prefix(provider: Seq<char>) -> Seq<char> {
    "GM_"@ + upper(provider)
}

/// The variable that lists the ids of a provider's slots.
pub open spec fn ids_variable(provider: Seq<char>) -> Seq<char> {
    variable_prefix(provider) + "_SLOT_IDS"@
}

/// The variable with the key of a provider's `k`-th slot, counted from one.
pub open spec fn slot_variable(provider: Seq<char>, k: nat) -> Seq<char> {
    variable_prefix(provider) + "_KEY_SLOT_"@ + decimal(k)
}

/// The ids in a list that semicolons separate; an empty id is none.
pub open spec fn split_ids(s: Seq<char>) -> Seq<Seq<char>>
    decreases s.len(),
{
    if s.len() == 0 {
        Seq::empty()
    } else if s[0] == ';' {
        split_ids(s.skip(1))
    } else {
        proof {
            until_bounds(s, ';');
        }
        seq![s.take(until(s, ';') as int)] + split_ids(s.skip(until(s, ';') as int))
    }
}

/// The variables that list the ids of the upstreams with slots.
pub open spec fn ids_asked(upstreams: Seq<UpstreamView>) -> Names {
    |name: Seq<char>|
        exists|i: int|
            0 <= i < upstreams.len() && (#[trigger] upstreams[i]).file.slots is Some && name
                == ids_variable(upstreams[i].provider)
}

/// The ids in the answer to an id variable. Without a value there are none.
pub open spec fn slot_ids(answer: Option<Seq<char>>) -> Seq<Seq<char>> {
    match answer {
        Some(list) => split_ids(list),
        None => Seq::empty(),
    }
}

/// What the id variable of each upstream is answered with.
pub open spec fn lists_by(upstreams: Seq<UpstreamView>, answers: Answers) -> Seq<Option<Seq<char>>> {
    Seq::new(upstreams.len(), |i: int| answers(ids_variable(upstreams[i].provider)))
}

/// The id variable of each upstream with slots can be answered with what `lists`
/// holds for it.
pub open spec fn lists_possible(
    upstreams: Seq<UpstreamView>,
    can: Possible,
    lists: Seq<Option<Seq<char>>>,
) -> bool {
    &&& lists.len() == upstreams.len()
    &&& forall|i: int|
        0 <= i < upstreams.len() && (#[trigger] upstreams[i]).file.slots is Some ==> can(
            ids_variable(upstreams[i].provider),
            lists[i],
        )
}

/// The first `n` entries of the table from slot ids to variables.
pub open spec fn slot_entries(provider: Seq<char>, ids: Seq<Seq<char>>, n: nat) -> Seq<char>
    decreases n,
{
    if n == 0 {
        Seq::empty()
    } else {
        let k = (n - 1) as nat;
        slot_entries(provider, ids, k) + (if k == 0 {
            Seq::empty()
        } else {
            ", "@
        }) + "["@ + lua_quoted(ids[k as int]) + "] = "@ + lua_quoted(slot_variable(provider, n))
    }
}

/// A Lua boolean.
pub open spec fn lua_bool(b: bool) -> Seq<char> {
    if b {
        "true"@
    } else {
        "false"@
    }
}

/// The table for a provider's slots, with what separates it from the next.
pub open spec fn provider_entry(
    provider: Seq<char>,
    slots: SlotsView,
    ids: Seq<Seq<char>>,
) -> Seq<char> {
    "["@ + lua_quoted(provider) + "] = {cloud = "@ + lua_bool(slots.cloud) + ", disabled = "@
        + lua_bool(slots.disabled) + ", direct_env = "@ + lua_quoted(slots.direct_env)
        + ", default_env = "@ + (if ids.len() == 0 {
        "nil"@
    } else {
        lua_quoted(slot_variable(provider, 1))
    }) + ", slots = {"@ + slot_entries(provider, ids, ids.len()) + "}, auth_header = "@ + (
    match slots.auth_header {
        Some(header) => lua_quoted(header),
        None => "nil"@,
    }) + ", auth_prefix = "@ + lua_quoted(slots.auth_prefix) + "}, "@
}

/// The tables of the upstreams, in their order. One without slots has none.
pub open spec fn provider_entries(
    upstreams: Seq<UpstreamView>,
    lists: Seq<Option<Seq<char>>>,
) -> Seq<char>
    decreases upstreams.len(),
{
    if upstreams.len() == 0 {
        Seq::empty()
    } else {
        let last = upstreams.last();
        provider_entries(upstreams.drop_last(), lists) + match last.file.slots {
            Some(slots) => provider_entry(
                last.provider,
                slots,
                slot_ids(lists[upstreams.len() - 1]),
            ),
            None => Seq::empty(),
        }
    }
}

/// The Lua `slot_config` table, where the id variables of the upstreams are
/// answered with `lists`.
pub open spec fn slot_config(
    upstreams: Seq<UpstreamView>,
    lists: Seq<Option<Seq<char>>>,
) -> Seq<char> {
    "{"@ + provider_entries(upstreams, lists) + "}"@
}

/// Only the answers for upstreams with slots matter.
proof fn only_their_lists_matter(
    upstreams: Seq<UpstreamView>,
    a: Seq<Option<Seq<char>>>,
    b: Seq<Option<Seq<char>>>,
)
    requires
        forall|i: int|
            0 <= i < upstreams.len() && (#[trigger] upstreams[i]).file.slots is Some ==> a[i]
                == b[i],
    ensures
        provider_entries(upstreams, a) == provider_entries(upstreams, b),
    decreases upstreams.len(),
{
    if upstreams.len() > 0 {
        let init = upstreams.drop_last();
        assert forall|i: int|
            0 <= i < init.len() && (#[trigger] init[i]).file.slots is Some implies a[i] == b[i] by {
            assert(upstreams[i] == init[i]);
        }
        only_their_lists_matter(init, a, b);
        assert(upstreams[upstreams.len() - 1] == upstreams.last());
    }
}

fn to_upper(c: char) -> (r: char)
    ensures
        r == upper_char(c),
{
    if 'a' <= c && c <= 'z' {
        ((c as u8) - 32) as char
    } else {
        c
    }
}

/// What the names of a provider's variables start with.
fn prefix_of(provider: &str) -> (r: String)
    ensures
        r@ == variable_prefix(provider@),
{
    let mut out = "GM_".to_owned();
    let ghost start = out@;
    for c in it: provider.chars()
        invariant
            it.seq() == provider@,
            out@ == start + upper(provider@).take(it.index() as int),
    {
        out.push(to_upper(c));
    }
    assert(upper(provider@).take(provider@.len() as int) =~= upper(provider@));
    out
}

/// The ids in a list that semicolons separate.
fn ids_of(list: &str) -> (r: Vec<String>)
    ensures
        texts(r@) == split_ids(list@),
{
    let cs = characters(list);
    let ghost s = list@;
    let mut out: Vec<String> = Vec::new();
    let mut i: usize = 0;
    proof {
        assert(s.skip(0) =~= s);
        assert(texts(out@) + split_ids(s.skip(0)) =~= split_ids(s));
    }
    while i < cs.len()
        invariant
            i <= cs@.len(),
            cs@ == s,
            split_ids(s) == texts(out@) + split_ids(s.skip(i as int)),
        decreases cs@.len() - i,
    {
        let ghost rest = s.skip(i as int);
        if cs[i] == ';' {
            assert(rest.skip(1) =~= s.skip(i + 1));
            i += 1;
        } else {
            let mut j: usize = i;
            while j < cs.len() && cs[j] != ';'
                invariant
                    i <= j <= cs@.len(),
                    forall|k: int| i <= k < j ==> cs@[k] != ';',
                decreases cs@.len() - j,
            {
                j += 1;
            }
            let ghost before = texts(out@);
            let id = gather(&cs, i, j);
            out.push(id);
            proof {
                until_is(rest, ';', (j - i) as nat);
                assert(rest.take(j - i) =~= id@);
                assert(rest.skip(j - i) =~= s.skip(j as int));
                assert(texts(out@) =~= before.push(id@));
                assert(before + (seq![id@] + split_ids(s.skip(j as int))) =~= texts(out@)
                    + split_ids(s.skip(j as int)));
            }
            i = j;
        }
    }
    proof {
        assert(s.skip(i as int) =~= Seq::<char>::empty());
        assert(texts(out@) + Seq::<Seq<char>>::empty() =~= texts(out@));
    }
    out
}

/// The variable with the key of a provider's `k`-th slot, counted from one.
fn slot_variable_of(prefix: &String, k: usize) -> (r: String)
    ensures
        r@ == prefix@ + "_KEY_SLOT_"@ + decimal(k as nat),
{
    let mut out = prefix.clone();
    out.append("_KEY_SLOT_");
    let digits = to_decimal(k);
    out.append(&digits);
    out
}

/// The table from slot ids to variables.
fn slot_entries_of(prefix: &String, ids: &Vec<String>, Ghost(provider): Ghost<Seq<char>>) -> (r:
    String)
    requires
        prefix@ == variable_prefix(provider),
    ensures
        r@ == slot_entries(provider, texts(ids@), ids@.len()),
{
    let mut out = String::new();
    let mut k: usize = 0;
    while k < ids.len()
        invariant
            k <= ids@.len(),
            prefix@ == variable_prefix(provider),
            out@ == slot_entries(provider, texts(ids@), k as nat),
        decreases ids@.len() - k,
    {
        let ghost before = out@;
        if k > 0 {
            out.append(", ");
        }
        assert(out@ =~= before + (if k == 0 {
            Seq::empty()
        } else {
            ", "@
        }));
        out.append("[");
        let id = lua_string(&ids[k]);
        out.append(&id);
        out.append("] = ");
        let name = lua_string(&slot_variable_of(prefix, k + 1));
        out.append(&name);
        k += 1;
    }
    out
}

fn bool_text(b: bool) -> (r: &'static str)
    ensures
        r@ == lua_bool(b),
{
    if b {
        "true"
    } else {
        "false"
    }
}

/// Appends the table for a provider's slots.
fn push_provider(out: &mut String, provider: &String, slots: &Slots, ids: &Vec<String>)
    ensures
        final(out)@ == old(out)@ + provider_entry(provider@, slots@, texts(ids@)),
{
    let prefix = prefix_of(provider);
    let mut entry = "[".to_owned();
    entry.append(&lua_string(provider));
    entry.append("] = {cloud = ");
    entry.append(bool_text(slots.cloud));
    entry.append(", disabled = ");
    entry.append(bool_text(slots.disabled));
    entry.append(", direct_env = ");
    entry.append(&lua_string(&slots.direct_env));
    entry.append(", default_env = ");
    if ids.len() == 0 {
        entry.append("nil");
    } else {
        entry.append(&lua_string(&slot_variable_of(&prefix, 1)));
    }
    entry.append(", slots = {");
    entry.append(&slot_entries_of(&prefix, ids, Ghost(provider@)));
    entry.append("}, auth_header = ");
    match &slots.auth_header {
        Some(header) => {
            entry.append(&lua_string(header));
        },
        None => {
            entry.append("nil");
        },
    }
    entry.append(", auth_prefix = ");
    entry.append(&lua_string(&slots.auth_prefix));
    entry.append("}, ");
    out.append(&entry);
}

/// The Lua `slot_config` table, on one line so it drops into the filter's
/// block scalar without re-indentation.
pub fn slot_config_lua<E: Fn(&str) -> Option<String>>(upstreams: &Vec<Upstream>, env: &E) -> (r:
    String)
    requires
        may_ask(*env, ids_asked(upstream_views(upstreams@))),
    ensures
        exists|lists: Seq<Option<Seq<char>>>| #[trigger]
            lists_possible(upstream_views(upstreams@), possible(*env), lists) && r@ == slot_config(
                upstream_views(upstreams@),
                lists,
            ),
        forall|answers: Answers|
            looks_up(*env, answers, ids_asked(upstream_views(upstreams@))) ==> r@ == slot_config(
                upstream_views(upstreams@),
                #[trigger] lists_by(upstream_views(upstreams@), answers),
            ),
        one_line(r@),
        r@.len() >= 2,
        r@[0] == '{',
        r@.last() == '}',
{
    let ghost all = upstream_views(upstreams@);
    let ghost can = possible(*env);
    let ghost mut lists: Seq<Option<Seq<char>>> = Seq::empty();
    proof {
        reveal_strlit("{");
        reveal_strlit("}");
    }
    let mut out = "{".to_owned();
    let ghost start = out@;
    let mut i: usize = 0;
    while i < upstreams.len()
        invariant
            i <= upstreams@.len(),
            all == upstream_views(upstreams@),
            may_ask(*env, ids_asked(all)),
            can == possible(*env),
            start == "{"@,
            lists_possible(all.take(i as int), can, lists),
            out@ == start + provider_entries(all.take(i as int), lists),
        decreases upstreams@.len() - i,
    {
        let upstream = &upstreams[i];
        let ghost before = out@;
        let ghost so_far = lists;
        proof {
            assert(all.take(i + 1).drop_last() =~= all.take(i as int));
            assert(all.take(i + 1).last() == upstream@);
            assert(all[i as int] == upstream@);
        }
        if let Some(slots) = &upstream.file.slots {
            let mut name = prefix_of(&upstream.provider);
            name.append("_SLOT_IDS");
            assert(ids_asked(all)(name@));
            let answer = env(&name);
            proof {
                assert(can(name@, opt_text(answer)));
                lists = lists.push(opt_text(answer));
            }
            let ids = match &answer {
                Some(list) => ids_of(list),
                None => Vec::new(),
            };
            assert(texts(ids@) =~= slot_ids(opt_text(answer)));
            push_provider(&mut out, &upstream.provider, slots, &ids);
            assert(out@ =~= start + (provider_entries(all.take(i as int), so_far) + provider_entry(
                upstream@.provider,
                slots@,
                texts(ids@),
            )));
        } else {
            proof {
                lists = lists.push(None);
                assert(provider_entries(all.take(i as int), so_far) + Seq::<char>::empty()
                    =~= provider_entries(all.take(i as int), so_far));
            }
        }
        proof {
            only_their_lists_matter(all.take(i as int), so_far, lists);
            assert forall|j: int|
                0 <= j < i + 1 && (#[trigger] all.take(i + 1)[j]).file.slots is Some implies can(
                ids_variable(all.take(i + 1)[j].provider),
                lists[j],
            ) by {
                if j < i {
                    assert(all.take(i as int)[j] == all.take(i + 1)[j]);
                    assert(so_far[j] == lists[j]);
                }
            }
        }
        i += 1;
    }
    assert(all.take(i as int) =~= all);
    out.append("}");
    proof {
        assert(out@ =~= slot_config(all, lists));
        slot_config_is_one_line(all, lists);
        assert forall|answers: Answers| looks_up(*env, answers, ids_asked(all)) implies out@
            == slot_config(all, #[trigger] lists_by(all, answers)) by {
            assert forall|j: int|
                0 <= j < all.len() && (#[trigger] all[j]).file.slots is Some implies lists[j]
                == lists_by(all, answers)[j] by {
                let name = ids_variable(all[j].provider);
                assert(can(name, lists[j]));
                assert(ids_asked(all)(name));
            }
            only_their_lists_matter(all, lists, lists_by(all, answers));
        }
    }
    out
}

/// The value of a decimal digit.
pub open spec fn digit_value(c: char) -> int {
    c as int - '0' as int
}

/// The code that three decimal digits give, at `i`.
pub open spec fn code_at(s: Seq<char>, i: int) -> int {
    100 * digit_value(s[i]) + 10 * digit_value(s[i + 1]) + digit_value(s[i + 2])
}

/// A decimal digit.
pub open spec fn is_digit(c: char) -> bool {
    '0' <= c <= '9'
}

/// `c` in front of what was read, if it could be read.
pub open spec fn read_on(c: char, rest: Option<Seq<char>>) -> Option<Seq<char>> {
    match rest {
        Some(s) => Some(seq![c] + s),
        None => None,
    }
}

/// What Lua reads between the quotes of a string: a backslash before a
/// backslash or a quote stands for that character, one before three digits for
/// the ASCII character with that code. A bare quote or line end cannot stand there.
pub open spec fn lua_read_body(s: Seq<char>) -> Option<Seq<char>>
    decreases s.len(),
{
    if s.len() == 0 {
        Some(Seq::empty())
    } else if s[0] == '\\' {
        if s.len() >= 2 && (s[1] == '\\' || s[1] == '"') {
            read_on(s[1], lua_read_body(s.skip(2)))
        } else if s.len() >= 4 && is_digit(s[1]) && is_digit(s[2]) && is_digit(s[3]) && code_at(s, 1)
            < 128 {
            read_on(code_at(s, 1) as char, lua_read_body(s.skip(4)))
        } else {
            None
        }
    } else if s[0] == '"' || s[0] == '\n' || s[0] == '\r' {
        None
    } else {
        read_on(s[0], lua_read_body(s.skip(1)))
    }
}

/// What Lua reads a quoted string as.
pub open spec fn lua_read(s: Seq<char>) -> Option<Seq<char>> {
    if s.len() >= 2 && s[0] == '"' && s.last() == '"' {
        lua_read_body(s.subrange(1, s.len() - 1))
    } else {
        None
    }
}

proof fn escaped_is_read_back(c: char, rest: Seq<char>)
    ensures
        lua_read_body(escaped(c) + rest) == read_on(c, lua_read_body(rest)),
{
    let s = escaped(c) + rest;
    if c == '\\' || c == '"' {
        assert(s.skip(2) =~= rest);
        assert(s[0] == '\\' && s[1] == c);
    } else if is_control(c) {
        let n = c as int;
        assert(s.skip(4) =~= rest);
        assert(0 <= n < 128);
        assert(s[0] == '\\');
        assert(s[1] == digit(n / 100));
        assert(s[2] == digit(n / 10 % 10));
        assert(s[3] == digit(n % 10));
        assert(forall|d: int| 0 <= d < 10 ==> is_digit(#[trigger] digit(d)) && digit_value(digit(d))
            == d);
        assert(code_at(s, 1) == n);
    } else {
        assert(s.skip(1) =~= rest);
        assert(s[0] == c);
    }
}

proof fn body_is_read_back(s: Seq<char>)
    ensures
        lua_read_body(all_escaped(s)) == Some(s),
    decreases s.len(),
{
    if s.len() == 0 {
        assert(s =~= Seq::<char>::empty());
    } else {
        body_is_read_back(s.skip(1));
        escaped_is_read_back(s[0], all_escaped(s.skip(1)));
        assert(seq![s[0]] + s.skip(1) =~= s);
    }
}

/// Lua reads a quoted string back as the string that was quoted.
pub proof fn quoted_is_read_back(s: Seq<char>)
    ensures
        lua_read(lua_quoted(s)) == Some(s),
{
    let q = lua_quoted(s);
    assert(q.subrange(1, q.len() - 1) =~= all_escaped(s));
    body_is_read_back(s);
}

/// Different strings are quoted differently.
pub proof fn quoting_is_injective(a: Seq<char>, b: Seq<char>)
    requires
        lua_quoted(a) == lua_quoted(b),
    ensures
        a == b,
{
    quoted_is_read_back(a);
    quoted_is_read_back(b);
}

/// A text without ASCII control characters, line feeds among them.
pub open spec fn one_line(s: Seq<char>) -> bool {
    forall|i: int| 0 <= i < s.len() ==> !is_control(#[trigger] s[i])
}

proof fn all_escaped_is_one_line(s: Seq<char>)
    ensures
        one_line(all_escaped(s)),
    decreases s.len(),
{
    if s.len() > 0 {
        all_escaped_is_one_line(s.skip(1));
        let c = s[0];
        assert(forall|d: int| !is_control(#[trigger] digit(d)));
        assert(one_line(escaped(c)));
    }
}

/// A quoted string stays on one line, whatever it holds.
pub proof fn quoted_is_one_line(s: Seq<char>)
    ensures
        one_line(lua_quoted(s)),
{
    all_escaped_is_one_line(s);
}

proof fn slot_entries_are_one_line(provider: Seq<char>, ids: Seq<Seq<char>>, n: nat)
    ensures
        one_line(slot_entries(provider, ids, n)),
    decreases n,
{
    if n > 0 {
        let k = (n - 1) as nat;
        slot_entries_are_one_line(provider, ids, k);
        reveal_strlit(", ");
        reveal_strlit("[");
        reveal_strlit("] = ");
        quoted_is_one_line(ids[k as int]);
        quoted_is_one_line(slot_variable(provider, n));
    }
}

proof fn provider_entry_is_one_line(provider: Seq<char>, slots: SlotsView, ids: Seq<Seq<char>>)
    ensures
        one_line(provider_entry(provider, slots, ids)),
{
    reveal_strlit("[");
    reveal_strlit("] = {cloud = ");
    reveal_strlit("true");
    reveal_strlit("false");
    reveal_strlit(", disabled = ");
    reveal_strlit(", direct_env = ");
    reveal_strlit(", default_env = ");
    reveal_strlit("nil");
    reveal_strlit(", slots = {");
    reveal_strlit("}, auth_header = ");
    reveal_strlit(", auth_prefix = ");
    reveal_strlit("}, ");
    quoted_is_one_line(provider);
    quoted_is_one_line(slots.direct_env);
    quoted_is_one_line(slot_variable(provider, 1));
    slot_entries_are_one_line(provider, ids, ids.len());
    if let Some(header) = slots.auth_header {
        quoted_is_one_line(header);
    }
    quoted_is_one_line(slots.auth_prefix);
}

proof fn provider_entries_are_one_line(
    upstreams: Seq<UpstreamView>,
    lists: Seq<Option<Seq<char>>>,
)
    ensures
        one_line(provider_entries(upstreams, lists)),
    decreases upstreams.len(),
{
    if upstreams.len() > 0 {
        let last = upstreams.last();
        provider_entries_are_one_line(upstreams.drop_last(), lists);
        if let Some(slots) = last.file.slots {
            provider_entry_is_one_line(last.provider, slots, slot_ids(lists[upstreams.len() - 1]));
        }
    }
}

/// The `slot_config` table stays on one line, whatever the files and the
/// variables hold: it holds no line feed, nor any other ASCII control character.
pub proof fn slot_config_is_one_line(upstreams: Seq<UpstreamView>, lists: Seq<Option<Seq<char>>>)
    ensures
        one_line(slot_config(upstreams, lists)),
{
    reveal_strlit("{");
    reveal_strlit("}");
    provider_entries_are_one_line(upstreams, lists);
}

proof fn entries_without_upstream(
    before: Seq<UpstreamView>,
    upstream: UpstreamView,
    behind: Seq<UpstreamView>,
    answers: Answers,
)
    requires
        upstream.file.slots is None,
    ensures
        ({
            let all = before + seq![upstream] + behind;
            let without = before + behind;
            provider_entries(all, lists_by(all, answers)) == provider_entries(
                without,
                lists_by(without, answers),
            )
        }),
    decreases behind.len(),
{
    let all = before + seq![upstream] + behind;
    let without = before + behind;
    entries_of_init(all, answers);
    entries_of_init(without, answers);
    if behind.len() == 0 {
        assert(all.drop_last() =~= before);
        assert(without =~= before);
        let entries = provider_entries(before, lists_by(before, answers));
        assert(entries + Seq::<char>::empty() =~= entries);
    } else {
        let rest = behind.drop_last();
        entries_without_upstream(before, upstream, rest, answers);
        assert(all.drop_last() =~= before + seq![upstream] + rest);
        assert(without.drop_last() =~= before + rest);
    }
}

proof fn entries_of_init(upstreams: Seq<UpstreamView>, answers: Answers)
    ensures
        upstreams.len() > 0 ==> provider_entries(
            upstreams.drop_last(),
            lists_by(upstreams, answers),
        ) == provider_entries(upstreams.drop_last(), lists_by(upstreams.drop_last(), answers)),
{
    if upstreams.len() > 0 {
        only_their_lists_matter(
            upstreams.drop_last(),
            lists_by(upstreams, answers),
            lists_by(upstreams.drop_last(), answers),
        );
    }
}

/// An upstream without slots has no table: `slot_config` is the same without it.
pub proof fn upstream_without_slots_has_no_entry(
    before: Seq<UpstreamView>,
    upstream: UpstreamView,
    behind: Seq<UpstreamView>,
    answers: Answers,
)
    requires
        upstream.file.slots is None,
    ensures
        ({
            let all = before + seq![upstream] + behind;
            let without = before + behind;
            slot_config(all, lists_by(all, answers)) == slot_config(
                without,
                lists_by(without, answers),
            )
        }),
{
    entries_without_upstream(before, upstream, behind, answers);
}

/// The ids with a semicolon between each two.
pub open spec fn id_list(ids: Seq<Seq<char>>) -> Seq<char>
    decreases ids.len(),
{
    if ids.len() == 0 {
        Seq::empty()
    } else if ids.len() == 1 {
        ids[0]
    } else {
        ids[0] + seq![';'] + id_list(ids.skip(1))
    }
}

/// A list of ids is split into the ids that it was made of.
pub proof fn id_list_is_split_back(ids: Seq<Seq<char>>)
    requires
        forall|i: int|
            0 <= i < ids.len() ==> (#[trigger] ids[i]).len() > 0 && !ids[i].contains(';'),
    ensures
        split_ids(id_list(ids)) == ids,
    decreases ids.len(),
{
    if ids.len() == 0 {
        assert(ids =~= Seq::<Seq<char>>::empty());
    } else {
        let rest = ids.skip(1);
        let first = ids[0];
        let s = id_list(ids);
        assert forall|i: int| 0 <= i < rest.len() implies (#[trigger] rest[i]).len() > 0
            && !rest[i].contains(';') by {
            assert(rest[i] == ids[i + 1]);
        }
        id_list_is_split_back(rest);
        assert forall|i: int| 0 <= i < first.len() implies s[i] != ';' by {
            assert(s[i] == first[i]);
            assert(first.contains(first[i]));
        }
        until_is(s, ';', first.len());
        assert(s.take(first.len() as int) =~= first);
        let t = s.skip(first.len() as int);
        if ids.len() == 1 {
            assert(t =~= Seq::<char>::empty());
            assert(rest =~= Seq::<Seq<char>>::empty());
        } else {
            assert(t[0] == ';');
            assert(t.skip(1) =~= id_list(rest));
            assert(split_ids(t) == split_ids(t.skip(1)));
        }
        assert(s[0] != ';');
        assert(seq![first] + rest =~= ids);
    }
}

proof fn all_escaped_of_sum(a: Seq<char>, b: Seq<char>)
    ensures
        all_escaped(a + b) == all_escaped(a) + all_escaped(b),
    decreases a.len(),
{
    if a.len() == 0 {
        assert(a + b =~= b);
        assert(all_escaped(a) + all_escaped(b) =~= all_escaped(b));
    } else {
        all_escaped_of_sum(a.skip(1), b);
        assert((a + b).skip(1) =~= a.skip(1) + b);
        assert(escaped(a[0]) + (all_escaped(a.skip(1)) + all_escaped(b)) =~= escaped(a[0])
            + all_escaped(a.skip(1)) + all_escaped(b));
    }
}

/// A string is quoted character by character: between its quotes stands what stands
/// between those of its parts.
pub proof fn quoting_goes_by_characters(a: Seq<char>, b: Seq<char>)
    ensures
        lua_quoted(Seq::empty()) == seq!['"', '"'],
        lua_quoted(a + b) == lua_quoted(a).drop_last() + lua_quoted(b).skip(1),
{
    all_escaped_of_sum(a, b);
    assert(all_escaped(Seq::empty()) =~= Seq::<char>::empty());
    assert(lua_quoted(Seq::empty()) =~= seq!['"', '"']);
    assert(lua_quoted(a + b) =~= lua_quoted(a).drop_last() + lua_quoted(b).skip(1));
}

/// How one character is quoted: a backslash and a quote behind a backslash, an ASCII
/// control character as a backslash and the three digits of its code, and every
/// other as it is.
pub proof fn quoted_character(c: char)
    ensures
        ({
            let q = lua_quoted(seq![c]);
            if c == '\\' || c == '"' {
                q == seq!['"', '\\', c, '"']
            } else if (c as int) < 32 || c as int == 127 {
                &&& q.len() == 6 && q[0] == '"' && q[1] == '\\' && q[5] == '"'
                &&& '0' <= q[2] <= '9' && '0' <= q[3] <= '9' && '0' <= q[4] <= '9'
                &&& 100 * (q[2] as int - '0' as int) + 10 * (q[3] as int - '0' as int) + (q[4] as int
                    - '0' as int) == c as int
            } else {
                q == seq!['"', c, '"']
            }
        }),
{
    let s = seq![c];
    assert(s.skip(1) =~= Seq::<char>::empty());
    assert(all_escaped(s.skip(1)) =~= Seq::<char>::empty());
    assert(all_escaped(s) =~= escaped(c));
    let q = lua_quoted(s);
    assert(q =~= seq!['"'] + escaped(c) + seq!['"']);
    if c == '\\' || c == '"' {
        assert(q =~= seq!['"', '\\', c, '"']);
    } else if (c as int) < 32 || c as int == 127 {
        let n = c as int;
        assert(q[2] == digit(n / 100) && q[3] == digit(n / 10 % 10) && q[4] == digit(n % 10));
        assert(forall|d: int| 0 <= d < 10 ==> (#[trigger] digit(d)) as int == '0' as int + d);
    } else {
        assert(q =~= seq!['"', c, '"']);
    }
}

/// The names of variables hold the 26 small letters as the capitals that they are,
/// and every other character as it is.
pub proof fn capitals_of_letters(s: Seq<char>, i: int)
    requires
        0 <= i < s.len(),
    ensures
        upper(s).len() == s.len(),
        !"abcdefghijklmnopqrstuvwxyz"@.contains(s[i]) ==> upper(s)[i] == s[i],
        forall|k: int|
            0 <= k < 26 && s[i] == #[trigger] "abcdefghijklmnopqrstuvwxyz"@[k] ==> upper(s)[i]
                == "ABCDEFGHIJKLMNOPQRSTUVWXYZ"@[k],
{
    reveal_strlit("abcdefghijklmnopqrstuvwxyz");
    reveal_strlit("ABCDEFGHIJKLMNOPQRSTUVWXYZ");
    let small = "abcdefghijklmnopqrstuvwxyz"@;
    let c = s[i];
    if 'a' <= c <= 'z' {
        assert(small[c as int - 97] == c);
    }
}

/// The variables of a provider's slots.
pub proof fn slot_variables(provider: Seq<char>, k: nat)
    ensures
        ids_variable(provider) == "GM_"@ + upper(provider) + "_SLOT_IDS"@,
        slot_variable(provider, k) == "GM_"@ + upper(provider) + "_KEY_SLOT_"@ + decimal(k),
{
}

/// A semicolon parts the ids before it from those behind it, what holds none is one
/// id, and nothing is no id.
pub proof fn ids_are_parted_by_semicolons(a: Seq<char>, b: Seq<char>)
    requires
        !a.contains(';'),
    ensures
        split_ids(Seq::empty()).len() == 0,
        a.len() > 0 ==> split_ids(a) == seq![a],
        split_ids(a + seq![';'] + b) == split_ids(a) + split_ids(b),
{
    let none = Seq::<Seq<char>>::empty();
    let s = a + seq![';'] + b;
    assert forall|i: int| 0 <= i < a.len() implies a[i] != ';' && s[i] != ';' by {
        assert(a.contains(a[i]));
        assert(s[i] == a[i]);
    }
    if a.len() == 0 {
        assert(s.skip(1) =~= b);
        assert(split_ids(a) =~= none);
        assert(none + split_ids(b) =~= split_ids(b));
    } else {
        until_is(a, ';', a.len());
        until_is(s, ';', a.len());
        assert(a.take(a.len() as int) =~= a);
        assert(a.skip(a.len() as int) =~= Seq::<char>::empty());
        assert(split_ids(a.skip(a.len() as int)) =~= none);
        assert(split_ids(a) =~= seq![a]);
        let rest = s.skip(a.len() as int);
        assert(s.take(a.len() as int) =~= a);
        assert(rest.skip(1) =~= b);
        assert(rest[0] == ';');
        assert(split_ids(rest) == split_ids(b));
        assert(split_ids(s) == seq![a] + split_ids(rest));
    }
}

/// Without a value, a list of ids is empty.
pub proof fn missing_list_has_no_ids(list: Seq<char>)
    ensures
        slot_ids(None).len() == 0,
        slot_ids(Some(list)) == split_ids(list),
{
}

proof fn entries_of_sum(
    a: Seq<UpstreamView>,
    b: Seq<UpstreamView>,
    la: Seq<Option<Seq<char>>>,
    lb: Seq<Option<Seq<char>>>,
)
    requires
        la.len() == a.len(),
        lb.len() == b.len(),
    ensures
        provider_entries(a + b, la + lb) == provider_entries(a, la) + provider_entries(b, lb),
    decreases b.len(),
{
    if b.len() == 0 {
        assert(a + b =~= a);
        assert(la + lb =~= la);
        assert(provider_entries(a, la) + provider_entries(b, lb) =~= provider_entries(a, la));
    } else {
        let (init, linit) = (b.drop_last(), lb.drop_last());
        entries_of_sum(a, init, la, linit);
        assert((a + b).drop_last() =~= a + init);
        assert((a + b).last() == b.last());
        assert((la + lb)[a.len() + b.len() - 1] == lb[b.len() - 1]);
        only_their_lists_matter(a + init, la + lb, la + linit);
        only_their_lists_matter(init, lb, linit);
        let (x, y) = (provider_entries(a, la), provider_entries(init, linit));
        let last = b.last();
        let own = match last.file.slots {
            Some(slots) => provider_entry(last.provider, slots, slot_ids(lb[b.len() - 1])),
            None => Seq::empty(),
        };
        assert(x + y + own =~= x + (y + own));
    }
}

/// The table of two lists of upstreams holds what the tables of both hold, one behind
/// the other: no upstream's entry depends on another upstream, and none is lost.
pub proof fn tables_are_put_together(
    a: Seq<UpstreamView>,
    b: Seq<UpstreamView>,
    la: Seq<Option<Seq<char>>>,
    lb: Seq<Option<Seq<char>>>,
)
    requires
        la.len() == a.len(),
        lb.len() == b.len(),
    ensures
        slot_config(Seq::empty(), Seq::empty()) == seq!['{', '}'],
        slot_config(a + b, la + lb) == slot_config(a, la).drop_last() + slot_config(b, lb).skip(1),
{
    reveal_strlit("{");
    reveal_strlit("}");
    entries_of_sum(a, b, la, lb);
    assert(slot_config(Seq::empty(), Seq::empty()) =~= seq!['{', '}']);
    assert(slot_config(a + b, la + lb) =~= slot_config(a, la).drop_last() + slot_config(
        b,
        lb,
    ).skip(1));
}

/// The entry of each slot id, behind what parts it from the one before.
spec fn slot_parts(provider: Seq<char>, ids: Seq<Seq<char>>) -> Seq<Seq<char>> {
    Seq::new(
        ids.len(),
        |k: int|
            (if k == 0 {
                Seq::empty()
            } else {
                ", "@
            }) + "["@ + lua_quoted(ids[k]) + "] = "@ + lua_quoted(
                slot_variable(provider, (k + 1) as nat),
            ),
    )
}

proof fn slot_entries_are_flat(provider: Seq<char>, ids: Seq<Seq<char>>, n: nat)
    requires
        n <= ids.len(),
    ensures
        slot_entries(provider, ids, n) == slot_parts(provider, ids).take(n as int).flatten(),
    decreases n,
{
    let parts = slot_parts(provider, ids);
    if n > 0 {
        let k = (n - 1) as nat;
        slot_entries_are_flat(provider, ids, k);
        let now = parts.take(n as int);
        assert(now.drop_last() =~= parts.take(k as int));
        now.lemma_flatten_and_flatten_alt_are_equivalent();
        parts.take(k as int).lemma_flatten_and_flatten_alt_are_equivalent();
        let sep = if k == 0 {
            Seq::empty()
        } else {
            ", "@
        };
        let name = lua_quoted(slot_variable(provider, n));
        assert(now.last() == sep + "["@ + lua_quoted(ids[k as int]) + "] = "@ + name);
        let before = slot_entries(provider, ids, k);
        assert(before + sep + "["@ + lua_quoted(ids[k as int]) + "] = "@ + name =~= before + (sep
            + "["@ + lua_quoted(ids[k as int]) + "] = "@ + name));
    } else {
        assert(parts.take(0) =~= Seq::<Seq<char>>::empty());
    }
}

/// The table of one upstream: its provider, with each of its settings under its own
/// name, and each slot id, in order, with the variable of its number.
pub proof fn table_of_one_upstream(upstream: UpstreamView, list: Option<Seq<char>>)
    ensures
        upstream.file.slots is None ==> slot_config(seq![upstream], seq![list]) == seq!['{', '}'],
        upstream.file.slots matches Some(slots) ==> {
            let ids = slot_ids(list);
            let prefix = "GM_"@ + upper(upstream.provider) + "_KEY_SLOT_"@;
            let slot_table = Seq::new(
                ids.len(),
                |k: int|
                    (if k == 0 {
                        Seq::empty()
                    } else {
                        ", "@
                    }) + "["@ + lua_quoted(ids[k]) + "] = "@ + lua_quoted(
                        prefix + decimal((k + 1) as nat),
                    ),
            ).flatten();
            slot_config(seq![upstream], seq![list]) == "{"@ + ("["@ + lua_quoted(upstream.provider)
                + "] = {cloud = "@ + (if slots.cloud {
                "true"@
            } else {
                "false"@
            }) + ", disabled = "@ + (if slots.disabled {
                "true"@
            } else {
                "false"@
            }) + ", direct_env = "@ + lua_quoted(slots.direct_env) + ", default_env = "@ + (
            if ids.len() == 0 {
                "nil"@
            } else {
                lua_quoted(prefix + "1"@)
            }) + ", slots = {"@ + slot_table + "}, auth_header = "@ + (match slots.auth_header {
                Some(header) => lua_quoted(header),
                None => "nil"@,
            }) + ", auth_prefix = "@ + lua_quoted(slots.auth_prefix) + "}, "@) + "}"@
        },
{
    let one = seq![upstream];
    let lists = seq![list];
    assert(one.drop_last() =~= Seq::<UpstreamView>::empty());
    assert(provider_entries(one.drop_last(), lists) =~= Seq::<char>::empty());
    if let Some(slots) = upstream.file.slots {
        let ids = slot_ids(list);
        let p = upstream.provider;
        let prefix = "GM_"@ + upper(p) + "_KEY_SLOT_"@;
        assert(provider_entries(one, lists) =~= provider_entry(p, slots, ids));
        slot_entries_are_flat(p, ids, ids.len());
        let parts = slot_parts(p, ids);
        assert(parts.take(ids.len() as int) =~= parts);
        let slot_table = Seq::new(
            ids.len(),
            |k: int|
                (if k == 0 {
                    Seq::empty()
                } else {
                    ", "@
                }) + "["@ + lua_quoted(ids[k]) + "] = "@ + lua_quoted(
                    prefix + decimal((k + 1) as nat),
                ),
        );
        assert(parts =~= slot_table);
        reveal_strlit("1");
        assert(decimal(1) =~= "1"@);
    } else {
        reveal_strlit("{");
        reveal_strlit("}");
        assert(provider_entries(one, lists) =~= Seq::<char>::empty());
        assert(slot_config(one, lists) =~= seq!['{', '}']);
    }
}

/// Each upstream's own table stands in the table of all, without its braces, between
/// what comes of the upstreams before it and what comes of those behind it.
pub proof fn each_upstream_has_its_entry(
    upstreams: Seq<UpstreamView>,
    lists: Seq<Option<Seq<char>>>,
    i: int,
)
    requires
        lists.len() == upstreams.len(),
        0 <= i < upstreams.len(),
    ensures
        slot_config(upstreams, lists) == slot_config(upstreams.take(i), lists.take(i)).drop_last()
            + slot_config(seq![upstreams[i]], seq![lists[i]]).skip(1).drop_last() + slot_config(
            upstreams.skip(i + 1),
            lists.skip(i + 1),
        ).skip(1),
{
    let (a, la) = (upstreams.take(i), lists.take(i));
    let (b, lb) = (seq![upstreams[i]], seq![lists[i]]);
    let (c, lc) = (upstreams.skip(i + 1), lists.skip(i + 1));
    assert(upstreams =~= a + b + c);
    assert(lists =~= la + lb + lc);
    tables_are_put_together(a, b, la, lb);
    tables_are_put_together(a + b, c, la + lb, lc);
    reveal_strlit("{");
    reveal_strlit("}");
    let (x, y) = (slot_config(a, la), slot_config(b, lb));
    assert((x.drop_last() + y.skip(1)).drop_last() =~= x.drop_last() + y.skip(1).drop_last());
}

/// Which variables list slot ids: those of the upstreams with slots, and no others.
pub proof fn slot_variables_asked(upstreams: Seq<UpstreamView>, name: Seq<char>)
    ensures
        ids_asked(upstreams)(name) <==> exists|i: int|
            {
                &&& 0 <= i < upstreams.len()
                &&& (#[trigger] upstreams[i]).file.slots is Some
                &&& name == "GM_"@ + upper(upstreams[i].provider) + "_SLOT_IDS"@
            },
{
}

/// Each upstream's id variable is answered by the table of answers.
pub proof fn lists_come_from_the_answers(
    upstreams: Seq<UpstreamView>,
    answers: Answers,
    i: int,
)
    requires
        0 <= i < upstreams.len(),
    ensures
        lists_by(upstreams, answers).len() == upstreams.len(),
        lists_by(upstreams, answers)[i] == answers(
            "GM_"@ + upper(upstreams[i].provider) + "_SLOT_IDS"@,
        ),
{
}

/// Which lists of ids are possible: for each upstream with slots, an answer to its
/// variable.
pub proof fn possible_lists(
    upstreams: Seq<UpstreamView>,
    can: Possible,
    lists: Seq<Option<Seq<char>>>,
)
    ensures
        lists_possible(upstreams, can, lists) <==> lists.len() == upstreams.len() && forall|i: int|
            0 <= i < upstreams.len() && (#[trigger] upstreams[i]).file.slots is Some ==> can(
                "GM_"@ + upper(upstreams[i].provider) + "_SLOT_IDS"@,
                lists[i],
            ),
{
}

} // verus!
