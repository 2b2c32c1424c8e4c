//! The start time that StreamYard writes into the name of a local recording.
use vstd::prelude::*;

use crate::text::{chars_of, decimal};

verus! {

pub open spec fn is_digit(c: char) -> bool {
    '0' <= c <= '9'
}

/// Where the digits that stand directly before position `i` begin.
pub open spec fn digits_start(s: Seq<char>, i: int) -> int
    decreases i,
{
    if i <= 0 || !is_digit(s[i - 1]) {
        i
    } else {
        digits_start(s, i - 1)
    }
}

/// The number that the digits in `from..to` stand for.
pub open spec fn number_in(s: Seq<char>, from: int, to: int) -> int
    decreases to - from,
{
    if to <= from {
        0
    } else {
        10 * number_in(s, from, to - 1) + (s[to - 1] as int - '0' as int)
    }
}

/// The number that stands directly before position `i`, if there is one.
pub open spec fn number_before(s: Seq<char>, i: int) -> Option<int> {
    if digits_start(s, i) == i {
        None
    } else {
        Some(number_in(s, digits_start(s, i), i))
    }
}

/// Where the digits that begin at position `i` end.
pub open spec fn digits_end(s: Seq<char>, i: int) -> int
    decreases s.len() - i,
{
    if 0 <= i < s.len() && is_digit(s[i]) {
        digits_end(s, i + 1)
    } else {
        i
    }
}

/// The two characters of a mark stand at position `i`.
pub open spec fn is_mark(s: Seq<char>, i: int, x: char, y: char) -> bool {
    0 <= i && i + 2 <= s.len() && s[i] == x && s[i + 1] == y
}

/// The milliseconds of the token `HHh_MMm_SSs_mmmms` whose `h_` stands at position `i`, if
/// one does: each mark directly behind its number, and each number directly behind the mark
/// before. Hours, minutes and seconds have to be there; missing milliseconds count as zero.
pub open spec fn token_at(s: Seq<char>, i: int) -> Option<int> {
    let mi = digits_end(s, i + 2);
    let si = digits_end(s, mi + 2);
    let end = digits_end(s, si + 2);
    if is_mark(s, i, 'h', '_') && number_before(s, i) is Some && i + 2 < mi && is_mark(
        s,
        mi,
        'm',
        '_',
    ) && mi + 2 < si && is_mark(s, si, 's', '_') && is_mark(s, end, 'm', 's') {
        Some(
            3_600_000 * number_before(s, i)->0 + 60_000 * number_in(s, i + 2, mi) + 1000
                * number_in(s, mi + 2, si) + number_in(s, si + 2, end),
        )
    } else {
        None
    }
}

/// The milliseconds of the first token whose `h_` stands at position `i` or later.
pub open spec fn token_from(s: Seq<char>, i: int) -> Option<int>
    decreases s.len() - i,
{
    if i >= s.len() {
        None
    } else if token_at(s, i) is Some {
        token_at(s, i)
    } else {
        token_from(s, i + 1)
    }
}

/// The milliseconds of the first token in a text.
pub open spec fn token_ms(s: Seq<char>) -> Option<int> {
    token_from(s, 0)
}

pub open spec fn capped(v: int, max: int) -> int {
    if v > max {
        max
    } else {
        v
    }
}

/// Where the digits that stand directly before position `i` begin.
fn start_of_digits(s: &[char], i: usize) -> (r: usize)
    requires
        i <= s@.len(),
    ensures
        r <= i,
        r == digits_start(s@, i as int),
        forall|k: int| r <= k < i ==> is_digit(#[trigger] s@[k]),
{
    let mut a: usize = i;
    while a > 0 && '0' <= s[a - 1] && s[a - 1] <= '9'
        invariant
            a <= i <= s@.len(),
            digits_start(s@, i as int) == digits_start(s@, a as int),
            forall|k: int| a <= k < i ==> is_digit(#[trigger] s@[k]),
        ensures
            a <= i,
            a == digits_start(s@, i as int),
            forall|k: int| a <= k < i ==> is_digit(#[trigger] s@[k]),
        decreases a,
    {
        a = a - 1;
    }
    a
}

/// Where the digits that begin at position `i` end.
fn end_of_digits(s: &[char], i: usize) -> (r: usize)
    requires
        i <= s@.len(),
    ensures
        i <= r <= s@.len(),
        r == digits_end(s@, i as int),
        forall|k: int| i <= k < r ==> is_digit(#[trigger] s@[k]),
{
    let mut b: usize = i;
    while b < s.len() && '0' <= s[b] && s[b] <= '9'
        invariant
            i <= b <= s@.len(),
            digits_end(s@, i as int) == digits_end(s@, b as int),
            forall|k: int| i <= k < b ==> is_digit(#[trigger] s@[k]),
        ensures
            i <= b <= s@.len(),
            b == digits_end(s@, i as int),
            forall|k: int| i <= k < b ==> is_digit(#[trigger] s@[k]),
        decreases s@.len() - b,
    {
        b = b + 1;
    }
    b
}

/// The number that the digits in `from..to` stand for; one above `u64::MAX` counts as that.
fn number(s: &[char], from: usize, to: usize) -> (r: u64)
    requires
        from <= to <= s@.len(),
        forall|k: int| from <= k < to ==> is_digit(#[trigger] s@[k]),
    ensures
        0 <= number_in(s@, from as int, to as int),
        r == capped(number_in(s@, from as int, to as int), u64::MAX as int),
{
    let mut v: u64 = 0;
    let mut k: usize = from;
    while k < to
        invariant
            from <= k <= to <= s@.len(),
            forall|k: int| from <= k < to ==> is_digit(#[trigger] s@[k]),
            0 <= number_in(s@, from as int, k as int),
            v == capped(number_in(s@, from as int, k as int), u64::MAX as int),
        decreases to - k,
    {
        let d: u64 = s[k] as u64 - '0' as u64;
        let next: u128 = 10 * v as u128 + d as u128;
        v = if next > u64::MAX as u128 { u64::MAX } else { next as u64 };
        k = k + 1;
    }
    v
}

fn mark(s: &[char], i: usize, x: char, y: char) -> (r: bool)
    requires
        i <= s@.len(),
    ensures
        r == is_mark(s@, i as int, x, y),
{
    s.len() - i >= 2 && s[i] == x && s[i + 1] == y
}

/// The offset in nanoseconds of the token whose `h_` stands at position `i`; what is beyond
/// `i64::MAX` counts as that.
fn read_token(s: &[char], i: usize) -> (r: Option<i64>)
    requires
        i <= s@.len(),
    ensures
        r is Some <==> token_at(s@, i as int) is Some,
        r matches Some(v) ==> v == capped(
            1_000_000 * token_at(s@, i as int)->0,
            i64::MAX as int,
        ),
{
    assert(s@.len() == s.len());
    if !mark(s, i, 'h', '_') {
        return None;
    }
    let hi: usize = start_of_digits(s, i);
    if hi == i {
        return None;
    }
    let mi: usize = end_of_digits(s, i + 2);
    if mi == i + 2 || !mark(s, mi, 'm', '_') {
        return None;
    }
    let si: usize = end_of_digits(s, mi + 2);
    if si == mi + 2 || !mark(s, si, 's', '_') {
        return None;
    }
    let end: usize = end_of_digits(s, si + 2);
    if !mark(s, end, 'm', 's') {
        return None;
    }
    let h: u64 = number(s, hi, i);
    let m: u64 = number(s, i + 2, mi);
    let sec: u64 = number(s, mi + 2, si);
    let ms: u64 = number(s, si + 2, end);
    let total: u128 = 3_600_000_000_000 * h as u128 + 60_000_000_000 * m as u128 + 1_000_000_000
        * sec as u128 + 1_000_000 * ms as u128;
    if total > i64::MAX as u128 {
        Some(i64::MAX)
    } else {
        Some(total as i64)
    }
}

/// Parses StreamYard's start-time token `HHh_MMm_SSs_mmmms` out of a file name. Gives the
/// offset in nanoseconds, or `None` if the token is absent; what is beyond `i64::MAX` counts
/// as that. Of several tokens the first is read.
pub fn parse_name_offset(path: &str) -> (r: Option<i64>)
    ensures
        r is Some <==> token_ms(path@) is Some,
        r matches Some(v) ==> v == capped(1_000_000 * token_ms(path@)->0, i64::MAX as int),
{
    let s = chars_of(path);
    let mut i: usize = 0;
    while i < s.len()
        invariant
            i <= s@.len(),
            s@ == path@,
            token_ms(path@) == token_from(s@, i as int),
        decreases s@.len() - i,
    {
        let r = read_token(s.as_slice(), i);
        if r.is_some() {
            return r;
        }
        i = i + 1;
    }
    None
}

pub open spec fn all_digits(s: Seq<char>) -> bool {
    forall|k: int| 0 <= k < s.len() ==> is_digit(#[trigger] s[k])
}

/// The number that some digits stand for.
pub open spec fn number_of(s: Seq<char>) -> int {
    number_in(s, 0, s.len() as int)
}

proof fn lemma_digits_end(s: Seq<char>, i: int)
    requires
        0 <= i <= s.len(),
    ensures
        i <= digits_end(s, i) <= s.len(),
        forall|k: int| i <= k < digits_end(s, i) ==> is_digit(#[trigger] s[k]),
        digits_end(s, i) == s.len() || !is_digit(s[digits_end(s, i)]),
    decreases s.len() - i,
{
    if i < s.len() && is_digit(s[i]) {
        lemma_digits_end(s, i + 1);
    }
}

proof fn lemma_digits_end_is(s: Seq<char>, i: int, e: int)
    requires
        0 <= i <= e <= s.len(),
        forall|k: int| i <= k < e ==> is_digit(#[trigger] s[k]),
        e == s.len() || !is_digit(s[e]),
    ensures
        digits_end(s, i) == e,
    decreases e - i,
{
    if i < e {
        lemma_digits_end_is(s, i + 1, e);
    }
}

proof fn lemma_digits_start(s: Seq<char>, a: int, i: int)
    requires
        0 <= a <= i <= s.len(),
        forall|k: int| a <= k < i ==> is_digit(#[trigger] s[k]),
        a == 0 || !is_digit(s[a - 1]),
    ensures
        digits_start(s, i) == a,
    decreases i - a,
{
    if a < i {
        lemma_digits_start(s, a, i - 1);
    }
}

proof fn lemma_number_in(s: Seq<char>, d: Seq<char>, a: int, n: int)
    requires
        0 <= n <= d.len(),
        0 <= a,
        a + n <= s.len(),
        forall|k: int| 0 <= k < n ==> s[a + k] == #[trigger] d[k],
    ensures
        number_in(s, a, a + n) == number_in(d, 0, n),
    decreases n,
{
    if n > 0 {
        lemma_number_in(s, d, a, n - 1);
        assert(s[a + (n - 1)] == d[n - 1]);
    }
}

/// The digits `d` stand in `s` at position `a`, with no other digit before them.
proof fn lemma_number_before(s: Seq<char>, d: Seq<char>, a: int)
    requires
        0 <= a,
        a + d.len() <= s.len(),
        s.subrange(a, a + d.len()) == d,
        all_digits(d),
        a == 0 || !is_digit(s[a - 1]),
    ensures
        number_before(s, a + d.len()) == if d.len() == 0 {
            None
        } else {
            Some(number_of(d))
        },
{
    let i = a + d.len();
    assert forall|k: int| 0 <= k < d.len() implies s[a + k] == #[trigger] d[k] by {
        assert(s.subrange(a, i)[k] == s[a + k]);
    }
    assert forall|k: int| a <= k < i implies is_digit(#[trigger] s[k]) by {
        assert(s[a + (k - a)] == d[k - a]);
    }
    lemma_digits_start(s, a, i);
    lemma_number_in(s, d, a, d.len() as int);
}

/// The digits `d` stand in `s` at position `a`, with something else behind them.
proof fn lemma_number_behind(s: Seq<char>, d: Seq<char>, a: int)
    requires
        0 <= a,
        a + d.len() < s.len(),
        s.subrange(a, a + d.len()) == d,
        all_digits(d),
        !is_digit(s[a + d.len()]),
    ensures
        digits_end(s, a) == a + d.len(),
        number_in(s, a, a + d.len()) == number_of(d),
{
    let e = a + d.len();
    assert forall|k: int| 0 <= k < d.len() implies s[a + k] == #[trigger] d[k] by {
        assert(s.subrange(a, e)[k] == s[a + k]);
    }
    assert forall|k: int| a <= k < e implies is_digit(#[trigger] s[k]) by {
        assert(s[a + (k - a)] == d[k - a]);
    }
    lemma_digits_end_is(s, a, e);
    lemma_number_in(s, d, a, d.len() as int);
}

/// The token for some digits.
pub open spec fn token_text(h: Seq<char>, m: Seq<char>, s: Seq<char>, ms: Seq<char>) -> Seq<char> {
    h + "h_"@ + m + "m_"@ + s + "s_"@ + ms + "ms"@
}

/// The pieces of a token stand in `all`, the hours at `a`.
spec fn is_token_at(
    all: Seq<char>,
    a: int,
    h: Seq<char>,
    m: Seq<char>,
    s: Seq<char>,
    ms: Seq<char>,
) -> bool {
    let hi = a + h.len();
    let mi = hi + 2 + m.len();
    let si = mi + 2 + s.len();
    let end = si + 2 + ms.len();
    &&& 0 <= a && end + 2 <= all.len()
    &&& all.subrange(a, hi) == h
    &&& is_mark(all, hi, 'h', '_')
    &&& all.subrange(hi + 2, mi) == m
    &&& is_mark(all, mi, 'm', '_')
    &&& all.subrange(mi + 2, si) == s
    &&& is_mark(all, si, 's', '_')
    &&& all.subrange(si + 2, end) == ms
    &&& is_mark(all, end, 'm', 's')
}

proof fn lemma_token_at(
    before: Seq<char>,
    h: Seq<char>,
    m: Seq<char>,
    s: Seq<char>,
    ms: Seq<char>,
    after: Seq<char>,
)
    ensures
        is_token_at(before + token_text(h, m, s, ms) + after, before.len() as int, h, m, s, ms),
{
    reveal_strlit("h_");
    reveal_strlit("m_");
    reveal_strlit("s_");
    reveal_strlit("ms");
    let all = before + token_text(h, m, s, ms) + after;
    let a = before.len() as int;
    let hi = a + h.len();
    let mi = hi + 2 + m.len();
    let si = mi + 2 + s.len();
    let end = si + 2 + ms.len();
    assert(all.subrange(a, hi) =~= h);
    assert(all[hi] == "h_"@[0] && all[hi + 1] == "h_"@[1]);
    assert(all.subrange(hi + 2, mi) =~= m);
    assert(all[mi] == "m_"@[0] && all[mi + 1] == "m_"@[1]);
    assert(all.subrange(mi + 2, si) =~= s);
    assert(all[si] == "s_"@[0] && all[si + 1] == "s_"@[1]);
    assert(all.subrange(si + 2, end) =~= ms);
    assert(all[end] == "ms"@[0] && all[end + 1] == "ms"@[1]);
}

/// A token reads where its pieces stand.
proof fn lemma_token_reads(
    all: Seq<char>,
    a: int,
    h: Seq<char>,
    m: Seq<char>,
    s: Seq<char>,
    ms: Seq<char>,
)
    requires
        is_token_at(all, a, h, m, s, ms),
        a == 0 || !is_digit(all[a - 1]),
        all_digits(h),
        all_digits(m),
        all_digits(s),
        all_digits(ms),
        h.len() > 0,
        m.len() > 0,
        s.len() > 0,
    ensures
        token_at(all, a + h.len()) == Some(
            3_600_000 * number_of(h) + 60_000 * number_of(m) + 1000 * number_of(s) + number_of(ms),
        ),
{
    let hi = a + h.len();
    let mi = hi + 2 + m.len();
    let si = mi + 2 + s.len();
    lemma_number_before(all, h, a);
    lemma_number_behind(all, m, hi + 2);
    lemma_number_behind(all, s, mi + 2);
    lemma_number_behind(all, ms, si + 2);
}

/// From a position before `a` the digits end before `a` too, and no mark reaches over it, if
/// the digits at `a` are followed by a mark that is another one.
proof fn lemma_ends_before(all: Seq<char>, i: int, a: int, e: int, x: char, y: char)
    requires
        0 <= i <= a <= e < all.len(),
        forall|k: int| a <= k < e ==> is_digit(#[trigger] all[k]),
        a < e,
        !is_digit(all[e]),
        is_mark(all, digits_end(all, i), x, y),
        !is_digit(y),
        x != all[e],
    ensures
        digits_end(all, i) + 2 <= a,
{
    lemma_digits_end(all, i);
    let d = digits_end(all, i);
    if d >= a {
        assert forall|k: int| i <= k < e implies is_digit(#[trigger] all[k]) by {}
        lemma_digits_end_is(all, i, e);
    } else if d + 1 == a {
        assert(is_digit(all[a]));
    }
}

proof fn lemma_same_start(s: Seq<char>, t: Seq<char>, i: int)
    requires
        0 <= i <= s.len(),
        i <= t.len(),
        forall|k: int| 0 <= k < i ==> #[trigger] s[k] == t[k],
    ensures
        digits_start(s, i) == digits_start(t, i),
    decreases i,
{
    if i > 0 {
        assert(s[i - 1] == t[i - 1]);
        lemma_same_start(s, t, i - 1);
    }
}

proof fn lemma_same_end(s: Seq<char>, t: Seq<char>, i: int)
    requires
        0 <= i <= s.len(),
        digits_end(s, i) < t.len() <= s.len(),
        forall|k: int| 0 <= k < t.len() ==> #[trigger] s[k] == t[k],
    ensures
        digits_end(t, i) == digits_end(s, i),
{
    lemma_digits_end(s, i);
    let e = digits_end(s, i);
    assert forall|k: int| i <= k < e implies is_digit(#[trigger] t[k]) by {
        assert(s[k] == t[k]);
    }
    assert(s[e] == t[e]);
    lemma_digits_end_is(t, i, e);
}

/// A token that begins before another one stands before it as a whole.
proof fn lemma_earlier_token(all: Seq<char>, before: Seq<char>, e: int, q: int)
    requires
        before.len() < e < all.len(),
        forall|k: int| 0 <= k < before.len() ==> #[trigger] all[k] == before[k],
        forall|k: int| before.len() <= k < e ==> is_digit(#[trigger] all[k]),
        all[e] == 'h',
        0 <= q < before.len(),
        token_at(all, q) is Some,
    ensures
        token_at(before, q) is Some,
{
    let a = before.len() as int;
    let mi = digits_end(all, q + 2);
    let si = digits_end(all, mi + 2);
    let end = digits_end(all, si + 2);
    if q + 1 == a {
        assert(is_digit(all[a]));
    }
    lemma_ends_before(all, q + 2, a, e, 'm', '_');
    lemma_ends_before(all, mi + 2, a, e, 's', '_');
    lemma_ends_before(all, si + 2, a, e, 'm', 's');
    lemma_digits_end(all, q + 2);
    lemma_digits_end(all, mi + 2);
    lemma_digits_end(all, si + 2);
    lemma_same_start(all, before, q);
    lemma_same_end(all, before, q + 2);
    lemma_same_end(all, before, mi + 2);
    lemma_same_end(all, before, si + 2);
}

proof fn lemma_no_token(s: Seq<char>, i: int, q: int)
    requires
        token_from(s, i) is None,
        i <= q < s.len(),
    ensures
        token_at(s, q) is None,
    decreases q - i,
{
    if i < q {
        lemma_no_token(s, i + 1, q);
    }
}

proof fn lemma_first_token(s: Seq<char>, i: int, p: int)
    requires
        i <= p < s.len(),
        forall|q: int| i <= q < p ==> #[trigger] token_at(s, q) is None,
        token_at(s, p) is Some,
    ensures
        token_from(s, i) == token_at(s, p),
    decreases p - i,
{
    if i < p {
        assert(token_at(s, i) is None);
        lemma_first_token(s, i + 1, p);
    }
}

/// A start-time token is read back from every name that holds it, whatever comes before and
/// behind it, as long as no other token comes before it and no digit directly before it.
pub proof fn law_token_is_read_back(
    before: Seq<char>,
    h: Seq<char>,
    m: Seq<char>,
    s: Seq<char>,
    ms: Seq<char>,
    after: Seq<char>,
)
    requires
        token_ms(before) is None,
        before.len() == 0 || !is_digit(before.last()),
        all_digits(h),
        all_digits(m),
        all_digits(s),
        all_digits(ms),
        h.len() > 0,
        m.len() > 0,
        s.len() > 0,
    ensures
        token_ms(before + token_text(h, m, s, ms) + after) == Some(
            3_600_000 * number_of(h) + 60_000 * number_of(m) + 1000 * number_of(s) + number_of(ms),
        ),
{
    let all = before + token_text(h, m, s, ms) + after;
    let a = before.len() as int;
    let hi = a + h.len();
    lemma_token_at(before, h, m, s, ms, after);
    assert(a > 0 ==> all[a - 1] == before[a - 1]);
    lemma_token_reads(all, a, h, m, s, ms);
    assert forall|k: int| a <= k < hi implies is_digit(#[trigger] all[k]) by {
        assert(all.subrange(a, hi)[k - a] == h[k - a]);
    }
    assert forall|q: int| 0 <= q < hi implies #[trigger] token_at(all, q) is None by {
        if q < a {
            lemma_no_token(before, 0, q);
            if token_at(all, q) is Some {
                lemma_earlier_token(all, before, hi, q);
            }
        } else {
            assert(is_digit(all[q]));
        }
    }
    lemma_first_token(all, 0, hi);
}

/// The decimal numeral of a number consists of digits and stands for that number.
pub proof fn law_decimal_is_read_back(n: int)
    requires
        n >= 0,
    ensures
        all_digits(decimal(n)),
        decimal(n).len() > 0,
        number_of(decimal(n)) == n,
    decreases n,
{
    let d = decimal(n);
    let last = d.len() - 1;
    if n < 10 {
        assert(number_in(d, 0, 0) == 0);
        assert(d[0] as int == 48 + n);
    } else {
        let t = decimal(n / 10);
        law_decimal_is_read_back(n / 10);
        assert(d[last] as int == 48 + n % 10);
        assert forall|k: int| 0 <= k < d.len() implies is_digit(#[trigger] d[k]) by {
            if k < last {
                assert(d[k] == t[k]);
            }
        }
        lemma_number_in(d, t, 0, last);
    }
}

/// A number above the limit counts as the limit, and any other as itself.
pub proof fn law_capped(v: int, max: int)
    ensures
        v <= max ==> capped(v, max) == v,
        v > max ==> capped(v, max) == max,
{
}

/// The offset that is parsed out of a name with a token is the token's time: hours, minutes,
/// seconds and milliseconds in nanoseconds, as far as that can be held.
pub proof fn law_offset_is_the_token_time(
    path: &str,
    r: Option<i64>,
    before: Seq<char>,
    h: int,
    m: int,
    s: int,
    ms: int,
    after: Seq<char>,
)
    requires
        call_ensures(parse_name_offset, (path,), r),
        0 <= h,
        0 <= m,
        0 <= s,
        0 <= ms,
        path@ == before + token_text(decimal(h), decimal(m), decimal(s), decimal(ms)) + after,
        token_ms(before) is None,
        before.len() == 0 || !is_digit(before.last()),
    ensures
        r is Some,
        ({
            let ns = 1_000_000 * (ms + 1000 * (s + 60 * (m + 60 * h)));
            &&& ns <= i64::MAX ==> r->0 == ns
            &&& ns > i64::MAX ==> r->0 == i64::MAX
        }),
{
    law_decimal_is_read_back(h);
    law_decimal_is_read_back(m);
    law_decimal_is_read_back(s);
    law_decimal_is_read_back(ms);
    law_token_is_read_back(before, decimal(h), decimal(m), decimal(s), decimal(ms), after);
}

} // verus!
