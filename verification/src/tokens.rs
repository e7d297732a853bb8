//! `__GM_<NAME>__` tokens in the text of a file, and what takes their place.

use vstd::prelude::*;
use vstd::string::*;

use crate::error::{Failure, RenderError};
use crate::text::{characters, gather, opt_text};

verus! {

/// What a lookup of variables answers, name by name.
pub type Answers = spec_fn(Seq<char>) -> Option<Seq<char>>;

/// A set of names.
pub type Names = spec_fn(Seq<char>) -> bool;

/// Whatever the lookup `env` returns for one of the names in `asked` is what
/// `answers` says of it.
pub open spec fn looks_up<E: Fn(&str) -> Option<String>>(
    env: E,
    answers: Answers,
    asked: Names,
) -> bool {
    forall|name: &str, value: Option<String>| #[trigger]
        call_ensures(env, (name,), value) && asked(name@) ==> opt_text(value) == answers(name@)
}

/// The lookup `env` can be asked for the names in `asked`. No other name is asked
/// for where this is all that is required.
pub open spec fn may_ask<E: Fn(&str) -> Option<String>>(env: E, asked: Names) -> bool {
    forall|name: &str| asked(name@) ==> #[trigger] call_requires(env, (name,))
}

/// Which values a name can be answered with. A lookup may answer differently each
/// time that it is asked.
pub type Possible = spec_fn(Seq<char>, Option<Seq<char>>) -> bool;

/// The answers that the lookup `env` can give.
pub open spec fn possible<E: Fn(&str) -> Option<String>>(env: E) -> Possible {
    |name: Seq<char>, value: Option<Seq<char>>|
        exists|asked: &str, answer: Option<String>| #[trigger]
            call_ensures(env, (asked,), answer) && asked@ == name && opt_text(answer) == value
}

/// A capital letter, a digit or an underscore.
pub open spec fn name_char(c: char) -> bool {
    'A' <= c <= 'Z' || '0' <= c <= '9' || c == '_'
}

/// Two underscores in a row, at `i`.
pub open spec fn pair_at(s: Seq<char>, i: int) -> bool {
    0 <= i && i + 1 < s.len() && s[i] == '_' && s[i + 1] == '_'
}

/// The name of a variable in a token: `GM_` and at least one more character, of
/// capital letters, digits and underscores, such that the first two underscores in
/// a row after the name's start are those that close the token.
pub open spec fn token_name(name: Seq<char>) -> bool {
    &&& name.len() > 3 && name[0] == 'G' && name[1] == 'M' && name[2] == '_'
    &&& forall|i: int| 0 <= i < name.len() ==> name_char(#[trigger] name[i])
    &&& forall|i: int| !pair_at(name, i)
    &&& name.last() != '_'
}

/// The text of the token for `name`.
pub open spec fn token_text(name: Seq<char>) -> Seq<char> {
    seq!['_', '_'] + name + seq!['_', '_']
}

/// `s` starts with the token for `name`.
pub open spec fn starts_token(s: Seq<char>, name: Seq<char>) -> bool {
    token_name(name) && token_text(name).is_prefix_of(s)
}

/// The name in the token that `s` starts with, if it starts with one.
pub open spec fn token(s: Seq<char>) -> Option<Seq<char>> {
    if exists|name: Seq<char>| starts_token(s, name) {
        Some(choose|name: Seq<char>| starts_token(s, name))
    } else {
        None
    }
}

/// `head` in front of what came out, if it came out.
pub open spec fn after<E>(head: Seq<char>, tail: Result<Seq<char>, E>) -> Result<Seq<char>, E> {
    match tail {
        Ok(t) => Ok(head + t),
        Err(e) => Err(e),
    }
}

/// `s` with the value of its variable in place of each token, from left to
/// right; or the first name that has no value.
pub open spec fn expanded(s: Seq<char>, answers: Answers) -> Result<Seq<char>, Seq<char>>
    decreases s.len(),
{
    if s.len() == 0 {
        Ok(Seq::empty())
    } else {
        match token(s) {
            Some(name) => match answers(name) {
                Some(value) => after(value, expanded(s.skip(name.len() as int + 4), answers)),
                None => Err(name),
            },
            None => after(seq![s[0]], expanded(s.skip(1), answers)),
        }
    }
}

/// The names in the tokens of `s`, from left to right.
pub open spec fn names(s: Seq<char>) -> Seq<Seq<char>>
    decreases s.len(),
{
    if s.len() == 0 {
        Seq::empty()
    } else {
        match token(s) {
            Some(name) => seq![name] + names(s.skip(name.len() as int + 4)),
            None => names(s.skip(1)),
        }
    }
}

/// The names that the tokens of `s` hold.
pub open spec fn names_in(s: Seq<char>) -> Names {
    |name: Seq<char>| names(s).contains(name)
}

/// `s` with the answers in place of its tokens, one after the other from left to
/// right; or the first name that was answered with no value.
pub open spec fn woven(s: Seq<char>, answers: Seq<Option<Seq<char>>>) -> Result<
    Seq<char>,
    Seq<char>,
>
    decreases s.len(),
{
    if s.len() == 0 {
        Ok(Seq::empty())
    } else {
        match token(s) {
            Some(name) => match answers[0] {
                Some(value) => after(
                    value,
                    woven(s.skip(name.len() as int + 4), answers.skip(1)),
                ),
                None => Err(name),
            },
            None => after(seq![s[0]], woven(s.skip(1), answers)),
        }
    }
}

/// The answers are possible for the names in the tokens of `s`, from left to right:
/// one for each, or as many as there are up to one with no value.
pub open spec fn answers_possible(
    s: Seq<char>,
    can: Possible,
    answers: Seq<Option<Seq<char>>>,
) -> bool {
    &&& answers.len() <= names(s).len()
    &&& answers.len() < names(s).len() ==> answers.len() > 0 && answers.last() is None
    &&& forall|i: int| 0 <= i < answers.len() ==> can(names(s)[i], #[trigger] answers[i])
}

/// What `s` can become with possible answers in place of its tokens.
pub open spec fn may_become(
    s: Seq<char>,
    can: Possible,
    result: Result<Seq<char>, Seq<char>>,
) -> bool {
    exists|answers: Seq<Option<Seq<char>>>| #[trigger]
        answers_possible(s, can, answers) && result == woven(s, answers)
}

/// What [`substitute`] returns for what a text became.
pub open spec fn told(result: Result<Seq<char>, Seq<char>>, path: Seq<char>) -> Result<
    Seq<char>,
    Failure,
> {
    match result {
        Ok(t) => Ok(t),
        Err(name) => Err(Failure::Unset { path, name }),
    }
}

/// What [`substitute`] gives for the text of the file at `path`.
pub open spec fn substituted(text: Seq<char>, answers: Answers, path: Seq<char>) -> Result<
    Seq<char>,
    Failure,
> {
    told(expanded(text, answers), path)
}

/// The view of a text or a failure.
pub open spec fn text_result(r: Result<String, RenderError>) -> Result<Seq<char>, Failure> {
    match r {
        Ok(s) => Ok(s@),
        Err(e) => Err(e@),
    }
}

/// A text starts with the token of at most one name.
pub proof fn token_is_unique(s: Seq<char>, a: Seq<char>, b: Seq<char>)
    requires
        starts_token(s, a),
        starts_token(s, b),
    ensures
        a == b,
{
    token_is_not_longer(s, a, b);
    token_is_not_longer(s, b, a);
    assert(a =~= b) by {
        assert forall|i: int| 0 <= i < a.len() implies a[i] == b[i] by {
            assert(token_text(a)[i + 2] == s[i + 2]);
            assert(token_text(b)[i + 2] == s[i + 2]);
        }
    }
}

proof fn token_is_not_longer(s: Seq<char>, a: Seq<char>, b: Seq<char>)
    requires
        starts_token(s, a),
        starts_token(s, b),
    ensures
        a.len() <= b.len(),
{
    if b.len() < a.len() {
        let n = b.len() as int;
        assert(token_text(b)[n + 2] == '_' && token_text(b)[n + 3] == '_');
        assert(s[n + 2] == '_' && s[n + 3] == '_');
        assert(token_text(a)[n + 2] == a[n]);
        if n + 1 < a.len() {
            assert(token_text(a)[n + 3] == a[n + 1]);
            assert(pair_at(a, n));
        } else {
            assert(a.last() == a[n]);
        }
    }
}

fn is_name_char(c: char) -> (r: bool)
    ensures
        r == name_char(c),
{
    ('A' <= c && c <= 'Z') || ('0' <= c && c <= '9') || c == '_'
}

/// Where the name ends in the token that stands at `i`, if one stands there.
fn token_end(cs: &Vec<char>, i: usize) -> (r: Option<usize>)
    requires
        i <= cs@.len(),
    ensures
        match r {
            Some(end) => {
                &&& i + 2 <= end && end + 2 <= cs@.len()
                &&& token(cs@.skip(i as int)) == Some(cs@.subrange(i + 2, end as int))
            },
            None => token(cs@.skip(i as int)) is None,
        },
{
    let n = cs.len();
    let ghost s = cs@.skip(i as int);
    if n - i < 8 || cs[i] != '_' || cs[i + 1] != '_' || cs[i + 2] != 'G' || cs[i + 3] != 'M'
        || cs[i + 4] != '_' {
        proof {
            assert forall|name: Seq<char>| !starts_token(s, name) by {
                if starts_token(s, name) {
                    let t = token_text(name);
                    assert(t.len() == name.len() + 4);
                    assert(t[0] == s[0] && t[1] == s[1] && t[2] == s[2] && t[3] == s[3] && t[4]
                        == s[4]);
                    assert(t[2] == name[0] && t[3] == name[1] && t[4] == name[2]);
                }
            }
        }
        return None;
    }
    let mut end = i + 2;
    while end + 1 < n && !(cs[end] == '_' && cs[end + 1] == '_')
        invariant
            n == cs@.len(),
            i + 8 <= n,
            i + 2 <= end < n,
            forall|j: int| i + 2 <= j < end ==> !pair_at(cs@, j),
        decreases n - end,
    {
        end += 1;
    }
    let mut ok = end + 1 < n && end > i + 5;
    let mut j = i + 2;
    while j < end && ok
        invariant
            n == cs@.len(),
            i + 2 <= j <= end < n,
            ok ==> end + 1 < n && end > i + 5 && forall|k: int|
                i + 2 <= k < j ==> name_char(#[trigger] cs@[k]),
            !ok ==> end + 1 >= n || end <= i + 5 || exists|k: int| i + 2 <= k < end && !name_char(
                #[trigger] cs@[k],
            ),
        decreases end - j,
    {
        ok = is_name_char(cs[j]);
        j += 1;
    }
    let ghost name = cs@.subrange(i + 2, end as int);
    if ok {
        proof {
            assert forall|k: int| 0 <= k < name.len() implies name_char(#[trigger] name[k]) by {
                assert(name[k] == cs@[k + i + 2]);
            }
            assert forall|k: int| !pair_at(name, k) by {
                if pair_at(name, k) {
                    assert(pair_at(cs@, k + i + 2));
                }
            }
            assert(!pair_at(cs@, end - 1));
            assert(name.last() == cs@[end - 1]);
            assert(token_text(name) =~= s.take(name.len() as int + 4));
            assert(starts_token(s, name));
            token_is_unique(s, name, token(s)->0);
        }
        Some(end)
    } else {
        proof {
            assert forall|name: Seq<char>| !starts_token(s, name) by {
                if starts_token(s, name) {
                    let t = token_text(name);
                    let m = name.len() as int;
                    assert(t[m + 2] == '_' && t[m + 3] == '_');
                    assert(s[m + 2] == '_' && s[m + 3] == '_');
                    assert(pair_at(cs@, i + m + 2));
                    assert(end <= i + m + 2);
                    if end + 1 < n && end <= i + 5 {
                        assert(t[end - i] == s[end - i] && t[end - i + 1] == s[end - i + 1]);
                        assert(pair_at(name, end - i - 2));
                    } else if end + 1 < n {
                        let k = choose|k: int| i + 2 <= k < end && !name_char(#[trigger] cs@[k]);
                        assert(t[k - i] == s[k - i]);
                        assert(t[k - i] == name[k - i - 2]);
                        assert(s[k - i] == cs@[k]);
                    }
                }
            }
        }
        None
    }
}

/// Replaces each `__GM_<NAME>__` in `text` with the value that `env` gives for
/// `GM_<NAME>`, in one pass from left to right. Inserted values are never
/// scanned again.
///
/// # Errors
/// Returns [`RenderError::Unset`] for the first token whose variable has no value.
pub fn substitute<E: Fn(&str) -> Option<String>>(text: &str, env: &E, path: &str) -> (r: Result<
    String,
    RenderError,
>)
    requires
        may_ask(*env, names_in(text@)),
    ensures
        exists|result: Result<Seq<char>, Seq<char>>| #[trigger]
            may_become(text@, possible(*env), result) && text_result(r) == told(result, path@),
        forall|answers: Answers|
            looks_up(*env, answers, names_in(text@)) ==> text_result(r) == #[trigger] substituted(
                text@,
                answers,
                path@,
            ),
        r matches Err(e) ==> e@ matches Failure::Unset { path: at, name } && at == path@ && names(
            text@,
        ).contains(name) && possible(*env)(name, None),
{
    let cs = characters(text);
    let ghost s = text@;
    let ghost can = possible(*env);
    let ghost mut got: Seq<Option<Seq<char>>> = Seq::empty();
    let mut out = String::new();
    let mut i: usize = 0;
    proof {
        assert(s.skip(0) =~= s);
        assert(names(s).skip(0) =~= names(s));
        assert forall|more: Seq<Option<Seq<char>>>| woven(s, got + more) == after(
            out@,
            #[trigger] woven(s.skip(0), more),
        ) by {
            assert(got + more =~= more);
            if let Ok(t) = woven(s, more) {
                assert(out@ + t =~= t);
            }
        }
    }
    while i < cs.len()
        invariant
            i <= cs@.len(),
            cs@ == s,
            s == text@,
            may_ask(*env, names_in(s)),
            can == possible(*env),
            got.len() <= names(s).len(),
            names(s.skip(i as int)) == names(s).skip(got.len() as int),
            forall|k: int| 0 <= k < got.len() ==> can(names(s)[k], #[trigger] got[k]),
            forall|more: Seq<Option<Seq<char>>>|
                woven(s, got + more) == after(out@, #[trigger] woven(s.skip(i as int), more)),
        decreases cs@.len() - i,
    {
        let ghost before = out@;
        let ghost here = s.skip(i as int);
        let ghost n = got.len() as int;
        let ghost so_far = got;
        match token_end(&cs, i) {
            Some(end) => {
                let name = gather(&cs, i + 2, end);
                proof {
                    let more = names(here.skip(name@.len() as int + 4));
                    let found = seq![name@] + more;
                    assert(names(here) == found);
                    assert(found.len() == 1 + more.len());
                    assert(names(s).len() == n + found.len());
                    assert(found[0] == name@);
                    assert(names(s)[n] == found[0]);
                    assert forall|k: int| 0 <= k < more.len() implies more[k] == names(s).skip(
                        n + 1,
                    )[k] by {
                        assert(found[k + 1] == names(s).skip(n)[k + 1]);
                    }
                    assert(names_in(s)(name@));
                    assert(here.skip(name@.len() as int + 4) =~= s.skip(end + 2));
                    assert(more =~= names(s).skip(n + 1));
                }
                let answer = env(&name);
                proof {
                    assert(can(name@, opt_text(answer)));
                    got = got.push(opt_text(answer));
                }
                match answer {
                    Some(value) => {
                        out.append(&value);
                        proof {
                            assert forall|more: Seq<Option<Seq<char>>>|
                                woven(s, got + more) == after(
                                    out@,
                                    #[trigger] woven(s.skip(end + 2), more),
                                ) by {
                                let all = seq![Some(value@)] + more;
                                assert(got + more =~= so_far + all);
                                assert(all.skip(1) =~= more);
                                assert(woven(here, all) == after(
                                    value@,
                                    woven(s.skip(end + 2), more),
                                ));
                                if let Ok(t) = woven(s.skip(end + 2), more) {
                                    assert(before + (value@ + t) =~= out@ + t);
                                }
                            }
                        }
                        i = end + 2;
                    },
                    None => {
                        proof {
                            let last = seq![None::<Seq<char>>];
                            assert(got =~= so_far + last);
                            assert(woven(here, last) == Err::<Seq<char>, Seq<char>>(name@));
                            assert(answers_possible(s, can, got));
                            let failed = woven(s, so_far + last);
                            assert(failed == Err::<Seq<char>, Seq<char>>(name@));
                            assert(may_become(text@, possible(*env), failed));
                            steady_lookups_decide(s, *env, failed);
                        }
                        return Err(RenderError::Unset { path: path.to_owned(), name });
                    },
                }
            },
            None => {
                out.push(cs[i]);
                proof {
                    assert(here.skip(1) =~= s.skip(i + 1));
                    assert(names(here) == names(s.skip(i + 1)));
                    assert forall|more: Seq<Option<Seq<char>>>|
                        woven(s, got + more) == after(
                            out@,
                            #[trigger] woven(s.skip(i + 1), more),
                        ) by {
                        assert(woven(here, more) == after(
                            seq![here[0]],
                            woven(s.skip(i + 1), more),
                        ));
                        if let Ok(t) = woven(s.skip(i + 1), more) {
                            assert(before + (seq![here[0]] + t) =~= out@ + t);
                        }
                    }
                }
                i += 1;
            },
        }
    }
    proof {
        let none = Seq::<Option<Seq<char>>>::empty();
        assert(s.skip(i as int) =~= Seq::<char>::empty());
        assert(names(s.skip(i as int)).len() == 0);
        assert(woven(s.skip(i as int), none) == Ok::<Seq<char>, Seq<char>>(Seq::empty()));
        assert(got + none =~= got);
        assert(out@ + Seq::<char>::empty() =~= out@);
        assert(answers_possible(s, can, got));
        let done = woven(s, got + none);
        assert(done == Ok::<Seq<char>, Seq<char>>(out@));
        assert(may_become(text@, possible(*env), done));
        steady_lookups_decide(s, *env, done);
    }
    Ok(out)
}

/// Where each answer is the one of its name, they give what the names' answers give.
proof fn woven_is_expanded(s: Seq<char>, got: Seq<Option<Seq<char>>>, answers: Answers)
    requires
        got.len() <= names(s).len(),
        got.len() < names(s).len() ==> got.len() > 0 && got.last() is None,
        forall|i: int| 0 <= i < got.len() ==> #[trigger] got[i] == answers(names(s)[i]),
    ensures
        woven(s, got) == expanded(s, answers),
    decreases s.len(),
{
    if s.len() > 0 {
        match token(s) {
            Some(name) => {
                let rest = s.skip(name.len() as int + 4);
                let all = seq![name] + names(rest);
                assert(names(s) == all);
                assert(all[0] == name);
                assert(got[0] == answers(names(s)[0]));
                if got[0] is Some {
                    let more = got.skip(1);
                    assert forall|i: int| 0 <= i < more.len() implies #[trigger] more[i] == answers(
                        names(rest)[i],
                    ) by {
                        assert(more[i] == got[i + 1]);
                        assert(all[i + 1] == names(rest)[i]);
                    }
                    if more.len() > 0 {
                        assert(more.last() == got.last());
                    }
                    woven_is_expanded(rest, more, answers);
                }
            },
            None => {
                assert(names(s) == names(s.skip(1)));
                woven_is_expanded(s.skip(1), got, answers);
            },
        }
    }
}

/// Where a lookup always answers a name alike, a text can become one thing only.
pub proof fn steady_lookup_decides(
    s: Seq<char>,
    can: Possible,
    answers: Answers,
    result: Result<Seq<char>, Seq<char>>,
)
    requires
        may_become(s, can, result),
        forall|name: Seq<char>, value: Option<Seq<char>>| #[trigger]
            can(name, value) && names(s).contains(name) ==> value == answers(name),
    ensures
        result == expanded(s, answers),
{
    let got = choose|got: Seq<Option<Seq<char>>>| #[trigger]
        answers_possible(s, can, got) && result == woven(s, got);
    assert forall|i: int| 0 <= i < got.len() implies #[trigger] got[i] == answers(names(s)[i]) by {
        assert(can(names(s)[i], got[i]));
        assert(names(s).contains(names(s)[i]));
    }
    woven_is_expanded(s, got, answers);
}

proof fn steady_lookups_decide<E: Fn(&str) -> Option<String>>(
    s: Seq<char>,
    env: E,
    result: Result<Seq<char>, Seq<char>>,
)
    requires
        may_become(s, possible(env), result),
    ensures
        forall|answers: Answers|
            looks_up(env, answers, names_in(s)) ==> result == #[trigger] expanded(s, answers),
{
    assert forall|answers: Answers| looks_up(env, answers, names_in(s)) implies result
        == #[trigger] expanded(s, answers) by {
        assert forall|name: Seq<char>, value: Option<Seq<char>>| #[trigger]
            possible(env)(name, value) && names(s).contains(name) implies value == answers(name) by {
            assert(names_in(s)(name));
        }
        steady_lookup_decides(s, possible(env), answers, result);
    }
}

/// With more answers possible for its names, a text can still become what it could.
pub proof fn more_answers_allow_more(
    s: Seq<char>,
    fewer: Possible,
    more: Possible,
    result: Result<Seq<char>, Seq<char>>,
)
    requires
        may_become(s, fewer, result),
        forall|name: Seq<char>, value: Option<Seq<char>>| #[trigger]
            fewer(name, value) && names(s).contains(name) ==> more(name, value),
    ensures
        may_become(s, more, result),
{
    let got = choose|got: Seq<Option<Seq<char>>>| #[trigger]
        answers_possible(s, fewer, got) && result == woven(s, got);
    assert forall|i: int| 0 <= i < got.len() implies more(names(s)[i], #[trigger] got[i]) by {
        assert(fewer(names(s)[i], got[i]));
        assert(names(s).contains(names(s)[i]));
    }
    assert(answers_possible(s, more, got));
}

/// What stops a text is a name of one of its tokens that can be answered with no value.
pub proof fn failure_names_an_unset_variable(s: Seq<char>, can: Possible, name: Seq<char>)
    requires
        may_become(s, can, Err::<Seq<char>, Seq<char>>(name)),
    ensures
        names(s).contains(name),
        can(name, None),
{
    let got = choose|got: Seq<Option<Seq<char>>>| #[trigger]
        answers_possible(s, can, got) && Err::<Seq<char>, Seq<char>>(name) == woven(s, got);
    let k = failed_at(s, got, name);
    assert(can(names(s)[k], got[k]));
}

proof fn failed_at(s: Seq<char>, got: Seq<Option<Seq<char>>>, name: Seq<char>) -> (k: int)
    requires
        got.len() <= names(s).len(),
        got.len() < names(s).len() ==> got.len() > 0 && got.last() is None,
        woven(s, got) == Err::<Seq<char>, Seq<char>>(name),
    ensures
        0 <= k < got.len(),
        names(s)[k] == name,
        got[k] is None,
    decreases s.len(),
{
    match token(s) {
        Some(first) => {
            let rest = s.skip(first.len() as int + 4);
            let all = seq![first] + names(rest);
            assert(names(s) == all);
            assert(all[0] == first);
            if got[0] is None {
                0
            } else {
                let more = got.skip(1);
                if more.len() > 0 {
                    assert(more.last() == got.last());
                }
                let k = failed_at(rest, more, name);
                assert(all[k + 1] == names(rest)[k]);
                k + 1
            }
        },
        None => {
            assert(names(s) == names(s.skip(1)));
            failed_at(s.skip(1), got, name)
        },
    }
}

/// A token is replaced by the value of its variable as it stands, whatever
/// that value holds: nothing in the value is read as a token. What stands
/// before the token is kept, and what follows it is expanded by itself.
pub proof fn inserted_value_is_inert(
    head: Seq<char>,
    name: Seq<char>,
    tail: Seq<char>,
    answers: Answers,
)
    requires
        token_name(name),
        forall|i: int|
            0 <= i < head.len() ==> token(#[trigger] (head + token_text(name) + tail).skip(i)) is None,
    ensures
        answers(name) matches Some(value) ==> expanded(head + token_text(name) + tail, answers)
            == after(head + value, expanded(tail, answers)),
        answers(name) is None ==> expanded(head + token_text(name) + tail, answers) == Err::<
            Seq<char>,
            Seq<char>,
        >(name),
    decreases head.len(),
{
    let s = head + token_text(name) + tail;
    if head.len() == 0 {
        assert(token_text(name).is_prefix_of(s)) by {
            assert(token_text(name) =~= s.take(name.len() as int + 4));
        }
        assert(starts_token(s, name));
        token_is_unique(s, name, token(s)->0);
        assert(s.skip(name.len() as int + 4) =~= tail);
        if let Some(value) = answers(name) {
            assert(head + value =~= value);
        }
    } else {
        let rest = head.drop_first();
        let t = rest + token_text(name) + tail;
        assert(s.skip(1) =~= t);
        assert forall|i: int| 0 <= i < rest.len() implies token(#[trigger] t.skip(i)) is None by {
            assert(t.skip(i) =~= s.skip(i + 1));
        }
        inserted_value_is_inert(rest, name, tail, answers);
        assert(s.skip(0) =~= s);
        if let Some(value) = answers(name) {
            if let Ok(x) = expanded(tail, answers) {
                assert(seq![s[0]] + ((rest + value) + x) =~= (head + value) + x);
            }
        }
    }
}

/// A text in which no token starts is left alone.
pub proof fn text_without_tokens_is_kept(s: Seq<char>, answers: Answers)
    requires
        forall|i: int| 0 <= i < s.len() ==> token(#[trigger] s.skip(i)) is None,
    ensures
        expanded(s, answers) == Ok::<Seq<char>, Seq<char>>(s),
    decreases s.len(),
{
    if s.len() > 0 {
        let rest = s.skip(1);
        assert forall|i: int| 0 <= i < rest.len() implies token(#[trigger] rest.skip(i)) is None by {
            assert(rest.skip(i) =~= s.skip(i + 1));
        }
        text_without_tokens_is_kept(rest, answers);
        assert(s.skip(0) =~= s);
        assert(seq![s[0]] + rest =~= s);
    } else {
        assert(s =~= Seq::<char>::empty());
    }
}

/// A missing value stops the expansion: it succeeds exactly when every token's
/// variable has a value, and otherwise names the first variable without one.
pub proof fn unset_variable_is_an_error(s: Seq<char>, answers: Answers)
    ensures
        expanded(s, answers) is Ok <==> forall|i: int|
            0 <= i < names(s).len() ==> answers(#[trigger] names(s)[i]) is Some,
        expanded(s, answers) matches Err(name) ==> answers(name) is None && exists|i: int|
            0 <= i < names(s).len() && names(s)[i] == name && forall|j: int|
                0 <= j < i ==> answers(#[trigger] names(s)[j]) is Some,
    decreases s.len(),
{
    if s.len() > 0 {
        match token(s) {
            Some(name) => {
                let rest = s.skip(name.len() as int + 4);
                unset_variable_is_an_error(rest, answers);
                let all = names(s);
                assert(all[0] == name);
                assert forall|i: int| 0 < i < all.len() implies all[i] == names(rest)[i - 1] by {}
                if answers(name) is Some {
                    if let Err(missing) = expanded(rest, answers) {
                        let i = choose|i: int|
                            0 <= i < names(rest).len() && names(rest)[i] == missing && forall|j: int|
                                0 <= j < i ==> answers(#[trigger] names(rest)[j]) is Some;
                        assert(all[i + 1] == missing);
                        assert forall|j: int| 0 <= j < i + 1 implies answers(
                            #[trigger] all[j],
                        ) is Some by {
                            if j > 0 {
                                assert(all[j] == names(rest)[j - 1]);
                            }
                        }
                    } else {
                        assert forall|i: int| 0 <= i < all.len() implies answers(
                            #[trigger] all[i],
                        ) is Some by {
                            if i > 0 {
                                assert(all[i] == names(rest)[i - 1]);
                            }
                        }
                    }
                }
            },
            None => {
                unset_variable_is_an_error(s.skip(1), answers);
            },
        }
    }
}

/// Each name that a text asks for is `GM_` with more of capital letters, digits and
/// underscores, and its token stands in the text.
pub proof fn names_stand_in_the_text(s: Seq<char>, name: Seq<char>)
    requires
        names(s).contains(name),
    ensures
        token_name(name),
        exists|i: int| 0 <= i <= s.len() && token_text(name).is_prefix_of(#[trigger] s.skip(i)),
    decreases s.len(),
{
    if s.len() > 0 {
        let (n, rest) = match token(s) {
            Some(first) => (first.len() as int + 4, s.skip(first.len() as int + 4)),
            None => (1int, s.skip(1)),
        };
        if token(s) == Some(name) {
            assert(s.skip(0) =~= s);
        } else {
            if let Some(first) = token(s) {
                let all = names(s);
                let k = choose|k: int| 0 <= k < all.len() && all[k] == name;
                assert(all[0] == first);
                assert(names(rest)[k - 1] == name);
            }
            names_stand_in_the_text(rest, name);
            let i = choose|i: int|
                0 <= i <= rest.len() && token_text(name).is_prefix_of(#[trigger] rest.skip(i));
            assert(rest.skip(i) =~= s.skip(n + i));
        }
    }
}

/// Only the values of the variables that a text names decide what it becomes.
pub proof fn only_named_variables_matter(s: Seq<char>, a: Answers, b: Answers)
    requires
        forall|i: int| 0 <= i < names(s).len() ==> a(#[trigger] names(s)[i]) == b(names(s)[i]),
    ensures
        expanded(s, a) == expanded(s, b),
    decreases s.len(),
{
    if s.len() > 0 {
        match token(s) {
            Some(name) => {
                let rest = s.skip(name.len() as int + 4);
                assert(names(s)[0] == name);
                assert forall|i: int| 0 <= i < names(rest).len() implies a(
                    #[trigger] names(rest)[i],
                ) == b(names(rest)[i]) by {
                    assert(names(s)[i + 1] == names(rest)[i]);
                }
                only_named_variables_matter(rest, a, b);
            },
            None => {
                only_named_variables_matter(s.skip(1), a, b);
            },
        }
    }
}

/// The characters of a name are the 26 capital letters, the ten digits and the
/// underscore, from the first to the last of them.
pub proof fn name_characters(c: char)
    ensures
        name_char(c) <==> "ABCDEFGHIJKLMNOPQRSTUVWXYZ0123456789_"@.contains(c),
        name_char('A') && name_char('Z') && name_char('0') && name_char('9') && name_char('_'),
{
    let all = "ABCDEFGHIJKLMNOPQRSTUVWXYZ0123456789_"@;
    reveal_strlit("ABCDEFGHIJKLMNOPQRSTUVWXYZ0123456789_");
    assert(all.len() == 37);
    if name_char(c) {
        let k = if 'A' <= c <= 'Z' {
            c as int - 65
        } else if '0' <= c <= '9' {
            c as int - 48 + 26
        } else {
            36
        };
        assert(all[k] == c);
    }
    if all.contains(c) {
        let k = choose|k: int| 0 <= k < all.len() && all[k] == c;
        assert(name_char(all[k]));
    }
}

/// `x` is what a token holds between `__GM_` and `__`: some of the characters of
/// a name, with underscores only one by one and between others.
pub open spec fn is_plain_name(x: Seq<char>) -> bool {
    &&& x.len() > 0
    &&& x[0] != '_' && x.last() != '_'
    &&& forall|i: int| 0 <= i < x.len() - 1 && #[trigger] x[i] == '_' ==> x[i + 1] != '_'
    &&& forall|i: int|
        0 <= i < x.len() ==> "ABCDEFGHIJKLMNOPQRSTUVWXYZ0123456789_"@.contains(#[trigger] x[i])
}

/// Where no `__GM_` stands, no token starts.
proof fn token_starts_with_gm(s: Seq<char>)
    requires
        !"__GM_"@.is_prefix_of(s),
    ensures
        token(s) is None,
{
    reveal_strlit("__GM_");
    assert forall|name: Seq<char>| !starts_token(s, name) by {
        if starts_token(s, name) {
            let t = token_text(name);
            assert(t[0] == s[0] && t[1] == s[1] && t[2] == s[2] && t[3] == s[3] && t[4] == s[4]);
            assert(t[2] == name[0] && t[3] == name[1] && t[4] == name[2]);
            assert("__GM_"@ =~= s.take(5));
        }
    }
}

/// A plain name with `GM_` in front is the name of a token.
proof fn plain_name_makes_a_token(x: Seq<char>)
    requires
        is_plain_name(x),
    ensures
        token_name("GM_"@ + x),
        token_text("GM_"@ + x) == "__GM_"@ + x + "__"@,
{
    let name = "GM_"@ + x;
    reveal_strlit("GM_");
    reveal_strlit("__GM_");
    reveal_strlit("__");
    assert forall|i: int| 0 <= i < name.len() implies name_char(#[trigger] name[i]) by {
        if i >= 3 {
            name_characters(x[i - 3]);
        }
    }
    assert forall|i: int| !pair_at(name, i) by {
        if pair_at(name, i) {
            if i >= 3 {
                assert(x[i - 3] == '_' && x[i - 2] == '_');
            } else {
                assert(i == 2);
                assert(x[0] == name[3]);
            }
        }
    }
    assert(name.last() == x.last());
    assert(token_text(name) =~= "__GM_"@ + x + "__"@);
}

proof fn token_behind_a_head(
    head: Seq<char>,
    name: Seq<char>,
    tail: Seq<char>,
    got: Seq<Option<Seq<char>>>,
)
    requires
        token_name(name),
        forall|i: int|
            0 <= i < head.len() ==> token(#[trigger] (head + token_text(name) + tail).skip(i)) is None,
    ensures
        names(head + token_text(name) + tail) == seq![name] + names(tail),
        woven(head + token_text(name) + tail, got) == match got[0] {
            Some(value) => after(head + value, woven(tail, got.skip(1))),
            None => Err(name),
        },
    decreases head.len(),
{
    let s = head + token_text(name) + tail;
    if head.len() == 0 {
        assert(s =~= token_text(name) + tail);
        assert(token_text(name) =~= s.take(token_text(name).len() as int));
        assert(starts_token(s, name));
        token_is_unique(s, name, token(s)->0);
        assert(s.skip(name.len() as int + 4) =~= tail);
        if let Some(value) = got[0] {
            assert(head + value =~= value);
        }
    } else {
        let rest = head.skip(1);
        let t = rest + token_text(name) + tail;
        assert(s.skip(1) =~= t);
        assert(s.skip(0) =~= s);
        assert(token(s) is None);
        assert forall|i: int| 0 <= i < rest.len() implies token(#[trigger] t.skip(i)) is None by {
            assert(t.skip(i) =~= s.skip(i + 1));
        }
        token_behind_a_head(rest, name, tail, got);
        if let Some(value) = got[0] {
            if let Ok(u) = woven(tail, got.skip(1)) {
                assert(seq![s[0]] + (rest + value + u) =~= head + value + u);
            }
        }
    }
}

/// Every token is replaced, wherever it stands: `__GM_<X>__` gives way to the value
/// of `GM_<X>`, for every name `X`. What stands before it, where no `__GM_` starts,
/// is kept, and what follows is expanded by itself. A variable without a value
/// stops the expansion, and is named.
pub proof fn token_becomes_its_value(
    head: Seq<char>,
    x: Seq<char>,
    tail: Seq<char>,
    answers: Answers,
)
    requires
        is_plain_name(x),
        forall|i: int|
            0 <= i < head.len() ==> !"__GM_"@.is_prefix_of(
                #[trigger] (head + ("__GM_"@ + x + "__"@) + tail).skip(i),
            ),
    ensures
        ({
            let s = head + ("__GM_"@ + x + "__"@) + tail;
            match (answers("GM_"@ + x), expanded(tail, answers)) {
                (Some(v), Ok(t)) => expanded(s, answers) == Ok::<Seq<char>, Seq<char>>(head + v + t),
                (Some(_), Err(n)) => expanded(s, answers) == Err::<Seq<char>, Seq<char>>(n),
                (None, _) => expanded(s, answers) == Err::<Seq<char>, Seq<char>>("GM_"@ + x),
            }
        }),
        names(head + ("__GM_"@ + x + "__"@) + tail) == seq!["GM_"@ + x] + names(tail),
{
    let name = "GM_"@ + x;
    plain_name_makes_a_token(x);
    let s = head + token_text(name) + tail;
    assert forall|i: int| 0 <= i < head.len() implies token(#[trigger] s.skip(i)) is None by {
        token_starts_with_gm(s.skip(i));
    }
    inserted_value_is_inert(head, name, tail, answers);
    token_behind_a_head(head, name, tail, Seq::empty());
}

/// A text that is one token becomes the value of its variable, whatever that is.
pub proof fn whole_token_becomes_its_value(x: Seq<char>, v: Seq<char>, answers: Answers)
    requires
        is_plain_name(x),
    ensures
        answers("GM_"@ + x) == Some(v) ==> expanded("__GM_"@ + x + "__"@, answers) == Ok::<
            Seq<char>,
            Seq<char>,
        >(v),
        answers("GM_"@ + x) is None ==> expanded("__GM_"@ + x + "__"@, answers) == Err::<
            Seq<char>,
            Seq<char>,
        >("GM_"@ + x),
{
    let none = Seq::<char>::empty();
    token_becomes_its_value(none, x, none, answers);
    assert(none + ("__GM_"@ + x + "__"@) + none =~= "__GM_"@ + x + "__"@);
    assert(none + v + none =~= v);
}

/// The same of answers that are given one by one: each token takes the next.
pub proof fn token_takes_the_next_answer(
    head: Seq<char>,
    x: Seq<char>,
    tail: Seq<char>,
    first: Option<Seq<char>>,
    more: Seq<Option<Seq<char>>>,
)
    requires
        is_plain_name(x),
        forall|i: int|
            0 <= i < head.len() ==> !"__GM_"@.is_prefix_of(
                #[trigger] (head + ("__GM_"@ + x + "__"@) + tail).skip(i),
            ),
    ensures
        ({
            let s = head + ("__GM_"@ + x + "__"@) + tail;
            match (first, woven(tail, more)) {
                (Some(v), Ok(t)) => woven(s, seq![first] + more) == Ok::<Seq<char>, Seq<char>>(
                    head + v + t,
                ),
                (Some(_), Err(n)) => woven(s, seq![first] + more) == Err::<Seq<char>, Seq<char>>(n),
                (None, _) => woven(s, seq![first] + more) == Err::<Seq<char>, Seq<char>>(
                    "GM_"@ + x,
                ),
            }
        }),
{
    let name = "GM_"@ + x;
    plain_name_makes_a_token(x);
    let s = head + token_text(name) + tail;
    assert forall|i: int| 0 <= i < head.len() implies token(#[trigger] s.skip(i)) is None by {
        token_starts_with_gm(s.skip(i));
    }
    let got = seq![first] + more;
    token_behind_a_head(head, name, tail, got);
    assert(got.skip(1) =~= more);
}

/// A text in which no `__GM_` starts is kept, and asks for nothing.
pub proof fn text_without_gm_is_kept(
    s: Seq<char>,
    answers: Answers,
    got: Seq<Option<Seq<char>>>,
)
    requires
        forall|i: int| 0 <= i < s.len() ==> !"__GM_"@.is_prefix_of(#[trigger] s.skip(i)),
    ensures
        expanded(s, answers) == Ok::<Seq<char>, Seq<char>>(s),
        woven(s, got) == Ok::<Seq<char>, Seq<char>>(s),
        names(s).len() == 0,
    decreases s.len(),
{
    if s.len() > 0 {
        let rest = s.skip(1);
        assert(s.skip(0) =~= s);
        token_starts_with_gm(s.skip(0));
        assert forall|i: int| 0 <= i < rest.len() implies !"__GM_"@.is_prefix_of(
            #[trigger] rest.skip(i),
        ) by {
            assert(rest.skip(i) =~= s.skip(i + 1));
        }
        text_without_gm_is_kept(rest, answers, got);
        assert(seq![s[0]] + rest =~= s);
    } else {
        assert(s =~= Seq::<char>::empty());
    }
}

/// `__GM_<X>__` is no token where `X` is empty or holds another character: its first
/// two underscores are kept, and what follows them is expanded by itself.
pub proof fn other_names_make_no_token(x: Seq<char>, tail: Seq<char>, answers: Answers)
    requires
        forall|i: int|
            0 <= i < x.len() + 3 ==> !"__"@.is_prefix_of(
                #[trigger] ("GM_"@ + x + "__"@ + tail).skip(i),
            ) || (x.len() == 0 && i == 2),
        x.len() == 0 || exists|i: int|
            0 <= i < x.len() && !"ABCDEFGHIJKLMNOPQRSTUVWXYZ0123456789_"@.contains(#[trigger] x[i]),
    ensures
        ({
            let rest = "GM_"@ + x + "__"@ + tail;
            match expanded(rest, answers) {
                Ok(t) => expanded("__"@ + rest, answers) == Ok::<Seq<char>, Seq<char>>("__"@ + t),
                Err(n) => expanded("__"@ + rest, answers) == Err::<Seq<char>, Seq<char>>(n),
            }
        }),
        names("__"@ + ("GM_"@ + x + "__"@ + tail)) == names("GM_"@ + x + "__"@ + tail),
{
    reveal_strlit("GM_");
    reveal_strlit("__");
    reveal_strlit("__GM_");
    let rest = "GM_"@ + x + "__"@ + tail;
    let s = "__"@ + rest;
    let m = x.len() as int + 3;
    assert forall|name: Seq<char>| !starts_token(s, name) by {
        if starts_token(s, name) {
            let t = token_text(name);
            let n = name.len() as int;
            assert(t[n + 2] == '_' && t[n + 3] == '_');
            assert(s[n + 2] == '_' && s[n + 3] == '_');
            assert(rest[n] == '_' && rest[n + 1] == '_');
            assert(rest.skip(n).take(2) =~= "__"@);
            if n < m {
                assert("__"@.is_prefix_of(rest.skip(n)));
            } else if n > m || x.len() == 0 {
                let k = if x.len() == 0 {
                    2int
                } else {
                    m
                };
                assert(s[k + 2] == '_' && s[k + 3] == '_');
                assert(t[k + 2] == s[k + 2]);
                assert(t[k + 2] == name[k]);
                if k + 1 < n {
                    assert(t[k + 3] == s[k + 3]);
                    assert(t[k + 3] == name[k + 1]);
                    assert(pair_at(name, k));
                } else {
                    assert(name.last() == name[k]);
                }
            } else {
                let i = choose|i: int|
                    0 <= i < x.len() && !"ABCDEFGHIJKLMNOPQRSTUVWXYZ0123456789_"@.contains(
                        #[trigger] x[i],
                    );
                assert(t[i + 5] == s[i + 5]);
                assert(t[i + 5] == name[i + 3]);
                assert(s[i + 5] == x[i]);
                name_characters(x[i]);
            }
        }
    }
    assert(token(s) is None);
    let mid = s.skip(1);
    assert(mid[1] == 'G');
    if "__GM_"@.is_prefix_of(mid) {
        assert(mid.subrange(0, 5)[1] == mid[1]);
    }
    token_starts_with_gm(mid);
    assert(mid.skip(1) =~= rest);
    assert(names(mid) == names(rest));
    if let Ok(t) = expanded(rest, answers) {
        assert(seq![s[0]] + (seq![mid[0]] + t) =~= "__"@ + t);
    }
    assert(expanded(mid, answers) == after(seq![mid[0]], expanded(rest, answers)));
}

/// What is told of an expansion: the text, or the file and the variable.
pub proof fn expansion_is_told(text: Seq<char>, answers: Answers, path: Seq<char>)
    ensures
        expanded(text, answers) matches Ok(t) ==> substituted(text, answers, path) == Ok::<
            Seq<char>,
            Failure,
        >(t),
        expanded(text, answers) matches Err(n) ==> substituted(text, answers, path) == Err::<
            Seq<char>,
            Failure,
        >(Failure::Unset { path, name: n }),
{
}

/// A lookup in a table is looked up in it, and gives nothing that the table does not
/// hold.
pub proof fn table_is_looked_up<E: Fn(&str) -> Option<String>>(
    env: E,
    table: Answers,
    asked: Names,
)
    requires
        forall|name: &str, value: Option<String>| #[trigger]
            call_ensures(env, (name,), value) ==> match value {
                Some(s) => table(name@) == Some(s@),
                None => table(name@) is None,
            },
    ensures
        looks_up(env, table, asked),
        forall|name: Seq<char>, value: Option<Seq<char>>| #[trigger]
            possible(env)(name, value) ==> value == table(name),
{
}

/// What comes of a substitution is kept.
pub proof fn text_is_kept(s: String, e: RenderError)
    ensures
        text_result(Ok(s)) == Ok::<Seq<char>, Failure>(s@),
        text_result(Err(e)) == Err::<Seq<char>, Failure>(e@),
{
}

/// Where no token starts, a character is kept, and what follows it is expanded by
/// itself, and asks for what it asks for by itself.
pub proof fn character_is_kept(
    s: Seq<char>,
    answers: Answers,
    got: Seq<Option<Seq<char>>>,
)
    requires
        s.len() > 0,
        forall|x: Seq<char>| #[trigger]
            is_plain_name(x) ==> !("__GM_"@ + x + "__"@).is_prefix_of(s),
    ensures
        match expanded(s.skip(1), answers) {
            Ok(t) => expanded(s, answers) == Ok::<Seq<char>, Seq<char>>(seq![s[0]] + t),
            Err(n) => expanded(s, answers) == Err::<Seq<char>, Seq<char>>(n),
        },
        match woven(s.skip(1), got) {
            Ok(t) => woven(s, got) == Ok::<Seq<char>, Seq<char>>(seq![s[0]] + t),
            Err(n) => woven(s, got) == Err::<Seq<char>, Seq<char>>(n),
        },
        names(s) == names(s.skip(1)),
{
    if let Some(name) = token(s) {
        reveal_strlit("GM_");
        let x = name.skip(3);
        assert(name =~= "GM_"@ + x);
        assert(x[0] == name[3] && x.last() == name.last());
        if x[0] == '_' {
            assert(pair_at(name, 2));
        }
        assert forall|i: int| 0 <= i < x.len() - 1 && #[trigger] x[i] == '_' implies x[i + 1]
            != '_' by {
            assert(!pair_at(name, i + 3));
        }
        assert forall|i: int| 0 <= i < x.len() implies "ABCDEFGHIJKLMNOPQRSTUVWXYZ0123456789_"@.contains(
            #[trigger] x[i],
        ) by {
            assert(name_char(name[i + 3]));
            name_characters(x[i]);
        }
        assert(is_plain_name(x));
        plain_name_makes_a_token(x);
        assert(false);
    }
}

/// A lookup that can be given the names in `asked` can be asked for them: nothing
/// more is needed of it.
pub proof fn names_are_all_that_is_asked<E: Fn(&str) -> Option<String>>(env: E, asked: Names)
    requires
        forall|name: &str| asked(name@) ==> #[trigger] call_requires(env, (name,)),
    ensures
        may_ask(env, asked),
{
}

} // verus!
