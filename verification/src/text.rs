//! Strings as sequences of characters: building them, comparing them, and
//! writing numbers in decimal.

use vstd::prelude::*;
use vstd::string::*;
use vstd::utf8::*;

verus! {

/// `String::push` appends one character to the end of the string.
pub assume_specification[ String::push ](s: &mut String, c: char)
    ensures
        final(s)@ == old(s)@.push(c),
;

/// `std::str::from_utf8`: the text that the bytes encode, or `None` where they
/// are not UTF-8.
#[verifier::external_body]
pub(crate) fn decode(bytes: &[u8]) -> (r: Option<String>)
    ensures
        r is Some <==> valid_utf8(bytes@),
        r matches Some(s) ==> s@ == decode_utf8(bytes@),
{
    std::str::from_utf8(bytes).ok().map(str::to_owned)
}

/// The view of an optional string.
pub open spec fn opt_text(o: Option<String>) -> Option<Seq<char>> {
    match o {
        Some(s) => Some(s@),
        None => None,
    }
}

/// The characters of `s`, one by one.
pub(crate) fn characters(s: &str) -> (r: Vec<char>)
    ensures
        r@ == s@,
{
    let mut out: Vec<char> = Vec::new();
    for c in it: s.chars()
        invariant
            it.seq() == s@,
            out@ == s@.take(it.index() as int),
    {
        out.push(c);
    }
    out
}

/// The text of the characters from `from` up to `to`.
pub(crate) fn gather(cs: &Vec<char>, from: usize, to: usize) -> (r: String)
    requires
        from <= to <= cs@.len(),
    ensures
        r@ == cs@.subrange(from as int, to as int),
{
    let mut out = String::new();
    for i in from..to
        invariant
            from <= to <= cs@.len(),
            out@ == cs@.subrange(from as int, i as int),
    {
        out.push(cs[i]);
    }
    out
}

/// The views of a list of strings.
pub open spec fn texts(list: Seq<String>) -> Seq<Seq<char>> {
    Seq::new(list.len(), |i: int| list[i]@)
}

/// How many characters stand before the first `c`.
pub open spec fn until(s: Seq<char>, c: char) -> nat
    decreases s.len(),
{
    if s.len() == 0 || s[0] == c {
        0
    } else {
        1 + until(s.skip(1), c)
    }
}

/// What [`until`] counts are characters of `s`.
pub proof fn until_bounds(s: Seq<char>, c: char)
    ensures
        until(s, c) <= s.len(),
        s.len() > 0 && s[0] != c ==> until(s, c) > 0,
    decreases s.len(),
{
    if s.len() > 0 && s[0] != c {
        until_bounds(s.skip(1), c);
    }
}

/// The first `c` stands where none stands before it.
pub(crate) proof fn until_is(s: Seq<char>, c: char, n: nat)
    requires
        n <= s.len(),
        forall|i: int| 0 <= i < n ==> s[i] != c,
        n < s.len() ==> s[n as int] == c,
    ensures
        until(s, c) == n,
    decreases n,
{
    if n > 0 {
        let rest = s.skip(1);
        assert forall|i: int| 0 <= i < n - 1 implies rest[i] != c by {
            assert(rest[i] == s[i + 1]);
        }
        until_is(rest, c, (n - 1) as nat);
    }
}

/// [`until`] counts up to the first `c`, or to the end.
pub(crate) proof fn until_finds(s: Seq<char>, c: char)
    ensures
        until(s, c) <= s.len(),
        !s.take(until(s, c) as int).contains(c),
        until(s, c) < s.len() ==> s[until(s, c) as int] == c,
        until(s, c) == s.len() ==> !s.contains(c),
    decreases s.len(),
{
    if s.len() > 0 && s[0] != c {
        let rest = s.skip(1);
        until_finds(rest, c);
        let n = until(s, c) as int;
        let head = s.take(n);
        assert forall|i: int| 0 <= i < n implies head[i] != c by {
            if i > 0 {
                assert(rest.take(n - 1)[i - 1] == head[i]);
                assert(rest.take(n - 1).contains(rest.take(n - 1)[i - 1]));
            }
        }
        if n == s.len() {
            assert(head =~= s);
        }
    }
}

/// Whether `text` is in the list.
pub(crate) fn holds_text(list: &Vec<String>, text: &String) -> (r: bool)
    ensures
        r == texts(list@).contains(text@),
{
    let ghost all = texts(list@);
    let mut i: usize = 0;
    while i < list.len()
        invariant
            i <= list@.len(),
            all == texts(list@),
            forall|j: int| 0 <= j < i ==> all[j] != text@,
        decreases list@.len() - i,
    {
        if list[i] == *text {
            assert(all[i as int] == text@);
            return true;
        }
        i += 1;
    }
    false
}

/// The decimal digit with value `d`.
pub open spec fn digit(d: int) -> char {
    if d == 0 { '0' } else if d == 1 { '1' } else if d == 2 { '2' } else if d == 3 { '3' }
    else if d == 4 { '4' } else if d == 5 { '5' } else if d == 6 { '6' } else if d == 7 { '7' }
    else if d == 8 { '8' } else { '9' }
}

/// `n` in decimal, without leading zeros.
pub open spec fn decimal(n: nat) -> Seq<char>
    decreases n,
{
    if n < 10 {
        seq![digit(n as int)]
    } else {
        decimal(n / 10).push(digit((n % 10) as int))
    }
}

/// The decimal digit with value `d`.
pub(crate) fn digit_char(d: usize) -> (c: char)
    requires
        d < 10,
    ensures
        c == digit(d as int),
{
    match d {
        0 => '0',
        1 => '1',
        2 => '2',
        3 => '3',
        4 => '4',
        5 => '5',
        6 => '6',
        7 => '7',
        8 => '8',
        _ => '9',
    }
}

/// Writes `n` in decimal.
pub(crate) fn to_decimal(n: usize) -> (r: String)
    ensures
        r@ == decimal(n as nat),
    decreases n,
{
    let mut out = if n < 10 { String::new() } else { to_decimal(n / 10) };
    out.push(digit_char(n % 10));
    out
}

/// Byte strings in lexicographic order: `a` comes before `b`.
pub open spec fn bytes_before(a: Seq<u8>, b: Seq<u8>) -> bool {
    exists|k: int| #[trigger] differ_at(a, b, k)
}

/// `a` and `b` agree up to `k`, where `a` ends or holds the smaller byte.
pub open spec fn differ_at(a: Seq<u8>, b: Seq<u8>, k: int) -> bool {
    &&& 0 <= k <= a.len()
    &&& k < b.len()
    &&& forall|i: int| 0 <= i < k ==> a[i] == b[i]
    &&& k < a.len() ==> a[k] < b[k]
}

/// Texts in the order of their UTF-8 bytes.
pub open spec fn text_before(a: Seq<char>, b: Seq<char>) -> bool {
    bytes_before(encode_utf8(a), encode_utf8(b))
}

/// Whether `a` comes before `b` in lexicographic order.
pub(crate) fn bytes_less(a: &[u8], b: &[u8]) -> (r: bool)
    ensures
        r == bytes_before(a@, b@),
{
    let mut i: usize = 0;
    while i < a.len() && i < b.len() && a[i] == b[i]
        invariant
            i <= a@.len(),
            i <= b@.len(),
            forall|j: int| 0 <= j < i ==> a@[j] == b@[j],
        decreases a@.len() - i,
    {
        i += 1;
    }
    let r = i < b.len() && (i == a.len() || a[i] < b[i]);
    proof {
        if r {
            assert(differ_at(a@, b@, i as int));
        } else {
            assert forall|k: int| !differ_at(a@, b@, k) by {
                if differ_at(a@, b@, k) {
                    assert(k >= i);
                    if k > i {
                        assert(a@[i as int] == b@[i as int]);
                    }
                }
            }
        }
    }
    r
}

/// Whether `a` comes before `b` in the order of strings.
pub(crate) fn text_less(a: &str, b: &str) -> (r: bool)
    ensures
        r == text_before(a@, b@),
{
    bytes_less(a.as_bytes(), b.as_bytes())
}

/// Of two distinct byte strings exactly one comes first, and none comes before itself.
pub proof fn bytes_before_is_total(a: Seq<u8>, b: Seq<u8>)
    ensures
        bytes_before(a, b) ==> !bytes_before(b, a),
        a != b ==> bytes_before(a, b) || bytes_before(b, a),
        !bytes_before(a, a),
{
    if bytes_before(a, b) && bytes_before(b, a) {
        let k = choose|k: int| differ_at(a, b, k);
        let j = choose|j: int| differ_at(b, a, j);
        if k < j {
            assert(b[k] == a[k]);
        } else if j < k {
            assert(a[j] == b[j]);
        }
    }
    if a != b {
        let n = common_prefix(a, b);
        common_prefix_is_longest(a, b);
        if n == a.len() && n == b.len() {
            assert(a =~= b);
        } else if n < b.len() && (n == a.len() || a[n] < b[n]) {
            assert(differ_at(a, b, n));
        } else {
            assert(differ_at(b, a, n));
        }
    }
    assert forall|k: int| !differ_at(a, a, k) by {}
}

spec fn common_prefix(a: Seq<u8>, b: Seq<u8>) -> int
    decreases a.len(),
{
    if a.len() == 0 || b.len() == 0 || a[0] != b[0] {
        0
    } else {
        1 + common_prefix(a.drop_first(), b.drop_first())
    }
}

proof fn common_prefix_is_longest(a: Seq<u8>, b: Seq<u8>)
    ensures
        0 <= common_prefix(a, b) <= a.len(),
        common_prefix(a, b) <= b.len(),
        forall|i: int| 0 <= i < common_prefix(a, b) ==> a[i] == b[i],
        common_prefix(a, b) < a.len() && common_prefix(a, b) < b.len() ==> a[common_prefix(a, b)]
            != b[common_prefix(a, b)],
    decreases a.len(),
{
    if a.len() == 0 || b.len() == 0 || a[0] != b[0] {
    } else {
        let (x, y) = (a.drop_first(), b.drop_first());
        common_prefix_is_longest(x, y);
        assert forall|i: int| 0 <= i < common_prefix(a, b) implies a[i] == b[i] by {
            if i > 0 {
                assert(x[i - 1] == y[i - 1]);
            }
        }
        let n = common_prefix(x, y);
        if n < x.len() && n < y.len() {
            assert(x[n] == a[n + 1] && y[n] == b[n + 1]);
        }
    }
}

/// The order of byte strings is transitive.
pub proof fn bytes_before_is_transitive(a: Seq<u8>, b: Seq<u8>, c: Seq<u8>)
    requires
        bytes_before(a, b),
        bytes_before(b, c),
    ensures
        bytes_before(a, c),
{
    let k = choose|k: int| differ_at(a, b, k);
    let j = choose|j: int| differ_at(b, c, j);
    if k <= j {
        assert(differ_at(a, c, k));
    } else {
        assert(differ_at(a, c, j));
    }
}

/// The order of texts is a strict total order.
pub proof fn text_before_is_strict_total(a: Seq<char>, b: Seq<char>, c: Seq<char>)
    ensures
        !text_before(a, a),
        text_before(a, b) ==> !text_before(b, a),
        a != b ==> text_before(a, b) || text_before(b, a),
        text_before(a, b) && text_before(b, c) ==> text_before(a, c),
{
    broadcast use encode_utf8_decode_utf8;

    bytes_before_is_total(encode_utf8(a), encode_utf8(a));
    bytes_before_is_total(encode_utf8(a), encode_utf8(b));
    if encode_utf8(a) == encode_utf8(b) {
        assert(decode_utf8(encode_utf8(a)) == decode_utf8(encode_utf8(b)));
    }
    if text_before(a, b) && text_before(b, c) {
        bytes_before_is_transitive(encode_utf8(a), encode_utf8(b), encode_utf8(c));
    }
}

/// Bytes come before the same bytes with more behind them.
pub proof fn shorter_bytes_come_first(a: Seq<u8>, b: Seq<u8>)
    requires
        b.len() > 0,
    ensures
        bytes_before(a, a + b),
        !bytes_before(a + b, a),
{
    assert(differ_at(a, a + b, a.len() as int));
    bytes_before_is_total(a, a + b);
}

/// The first byte in which byte strings differ decides their order.
pub proof fn first_difference_decides(p: Seq<u8>, x: u8, a: Seq<u8>, y: u8, b: Seq<u8>)
    requires
        x < y,
    ensures
        bytes_before(p + seq![x] + a, p + seq![y] + b),
        !bytes_before(p + seq![y] + b, p + seq![x] + a),
{
    assert(differ_at(p + seq![x] + a, p + seq![y] + b, p.len() as int));
    bytes_before_is_total(p + seq![x] + a, p + seq![y] + b);
}

/// Texts are ordered as their UTF-8 bytes are.
pub proof fn texts_are_ordered_by_their_bytes(a: Seq<char>, b: Seq<char>)
    ensures
        text_before(a, b) <==> bytes_before(encode_utf8(a), encode_utf8(b)),
{
}

/// The number that decimal digits stand for.
pub open spec fn decimal_value(s: Seq<char>) -> int {
    s.fold_left(0, |n: int, c: char| 10 * n + (c as int - '0' as int))
}

/// A number in decimal is read back as that number; it is made of digits, and does
/// not start with a zero unless it is zero.
pub proof fn decimal_is_read_back(n: nat)
    ensures
        decimal_value(decimal(n)) == n,
        decimal(n).len() > 0,
        forall|i: int| 0 <= i < decimal(n).len() ==> '0' <= #[trigger] decimal(n)[i] <= '9',
        n > 0 ==> decimal(n)[0] != '0',
    decreases n,
{
    let f = |m: int, c: char| 10 * m + (c as int - '0' as int);
    let d = (n % 10) as int;
    assert(digit(d) as int == '0' as int + d);
    if n < 10 {
        let s = seq![digit(n as int)];
        assert(s.drop_last() =~= Seq::<char>::empty());
        assert(s.drop_last().fold_left(0, f) == 0);
        assert(s.fold_left(0, f) == f(0, s.last()));
    } else {
        decimal_is_read_back(n / 10);
        let (init, s) = (decimal(n / 10), decimal(n));
        assert(s.drop_last() =~= init);
        assert(s.fold_left(0, f) == f(init.fold_left(0, f), s.last()));
    }
}

/// The digits of the numbers below ten.
pub proof fn digits_are_in_order(d: int)
    requires
        0 <= d < 10,
    ensures
        digit(d) == "0123456789"@[d],
{
    reveal_strlit("0123456789");
}

/// The models of strings are the strings' characters.
pub proof fn texts_are_kept(list: Seq<String>, i: int)
    requires
        0 <= i < list.len(),
    ensures
        texts(list).len() == list.len(),
        texts(list)[i] == list[i]@,
{
}

/// The model of an optional string is that of the string.
pub proof fn optional_text_is_kept(s: String)
    ensures
        opt_text(Some(s)) == Some(s@),
        opt_text(None) is None,
{
}

} // verus!
