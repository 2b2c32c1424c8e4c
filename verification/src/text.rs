//! Text as sequences of characters: decimal numbers, searching, trimming, joining.
use vstd::prelude::*;

verus! {

/// `String::push` appends one character to the end of the string.
pub assume_specification[ String::push ](s: &mut String, c: char)
    ensures
        final(s)@ == old(s)@.push(c),
;

/// The decimal digit for `d`.
pub open spec fn digit(d: int) -> char {
    (48 + d) as char
}

/// The decimal numeral of `n`, without leading zeros.
pub open spec fn decimal(n: int) -> Seq<char>
    decreases n,
{
    if n < 10 {
        seq![digit(n)]
    } else {
        decimal(n / 10).push(digit(n % 10))
    }
}

/// The decimal numeral of an integer, with a minus sign if it is negative.
pub open spec fn signed_decimal(n: int) -> Seq<char> {
    if n < 0 {
        "-"@ + decimal(-n)
    } else {
        decimal(n)
    }
}

/// A number below one thousand with three digits.
pub open spec fn three_digits(n: int) -> Seq<char> {
    seq![digit(n / 100), digit(n / 10 % 10), digit(n % 10)]
}

fn digit_char(d: u8) -> (c: char)
    requires
        d < 10,
    ensures
        c == digit(d as int),
{
    (48 + d) as char
}

/// Appends the decimal numeral of `n`.
pub fn push_decimal(out: &mut String, n: u128)
    ensures
        final(out)@ == old(out)@ + decimal(n as int),
    decreases n,
{
    if n >= 10 {
        push_decimal(out, n / 10);
    }
    out.push(digit_char((n % 10) as u8));
    proof {
        if n >= 10 {
            assert(out@ =~= old(out)@ + decimal(n as int / 10).push(digit(n as int % 10)));
        } else {
            assert(out@ =~= old(out)@ + seq![digit(n as int)]);
        }
    }
}

/// Appends the numeral of a number below one thousand, padded to three digits.
pub fn push_three_digits(out: &mut String, n: u32)
    requires
        n < 1000,
    ensures
        final(out)@ == old(out)@ + three_digits(n as int),
{
    out.push(digit_char((n / 100) as u8));
    out.push(digit_char((n / 10 % 10) as u8));
    out.push(digit_char((n % 10) as u8));
    assert(out@ =~= old(out)@ + three_digits(n as int));
}

/// Appends the numeral of an integer.
pub fn push_signed(out: &mut String, n: i128)
    ensures
        final(out)@ == old(out)@ + signed_decimal(n as int),
{
    if n < 0 {
        out.append("-");
        // `n + 1` is representable without its sign, which `n` need not be.
        let m: u128 = (-(n + 1)) as u128 + 1;
        push_decimal(out, m);
        assert(out@ =~= old(out)@ + signed_decimal(n as int));
    } else {
        push_decimal(out, n as u128);
    }
}

/// The views of a list of strings.
pub open spec fn views(v: Seq<String>) -> Seq<Seq<char>> {
    v.map_values(|s: String| s@)
}

/// Appends an argument to a command line.
pub fn arg(cmd: &mut Vec<String>, s: &str)
    ensures
        views(final(cmd)@) == views(old(cmd)@).push(s@),
{
    cmd.push(s.to_string());
    assert(views(cmd@) =~= views(old(cmd)@).push(s@));
}

/// Appends an argument that is already a string of its own.
pub fn arg_owned(cmd: &mut Vec<String>, s: String)
    ensures
        views(final(cmd)@) == views(old(cmd)@).push(s@),
{
    cmd.push(s);
    assert(views(cmd@) =~= views(old(cmd)@).push(s@));
}

/// The pieces one after the other, with `sep` between each two.
pub open spec fn joined(parts: Seq<Seq<char>>, sep: Seq<char>) -> Seq<char>
    decreases parts.len(),
{
    if parts.len() == 0 {
        Seq::empty()
    } else if parts.len() == 1 {
        parts[0]
    } else {
        joined(parts.drop_last(), sep) + sep + parts.last()
    }
}

/// The strings one after the other, with `sep` between each two.
pub fn join(parts: &[String], sep: &str) -> (r: String)
    ensures
        r@ == joined(views(parts@), sep@),
{
    let ghost v = views(parts@);
    let mut out = String::new();
    let mut i: usize = 0;
    while i < parts.len()
        invariant
            i <= parts@.len(),
            v == views(parts@),
            out@ == joined(v.take(i as int), sep@),
        decreases parts@.len() - i,
    {
        proof {
            assert(v.take(i + 1).drop_last() =~= v.take(i as int));
            assert(v.take(i + 1).last() == parts@[i as int]@);
        }
        if i > 0 {
            out.append(sep);
        }
        out.append(parts[i].as_str());
        assert(i == 0 ==> out@ =~= parts@[0]@);
        i = i + 1;
    }
    assert(v.take(i as int) =~= v);
    out
}

/// The characters of a string.
pub fn chars_of(s: &str) -> (r: Vec<char>)
    ensures
        r@ == s@,
{
    let mut out: Vec<char> = Vec::new();
    for c in it: s.chars()
        invariant
            out@ == s@.take(it.index()),
            it.seq() == s@,
    {
        out.push(c);
        assert(s@.take(it.index() + 1) =~= s@.take(it.index()).push(c));
    }
    assert(s@.take(s@.len() as int) =~= s@);
    out
}

/// The string made of some characters.
pub fn string_of(chars: &[char], from: usize, to: usize) -> (r: String)
    requires
        from <= to <= chars@.len(),
    ensures
        r@ == chars@.subrange(from as int, to as int),
{
    let mut out = String::new();
    let mut i: usize = from;
    while i < to
        invariant
            from <= i <= to <= chars@.len(),
            out@ == chars@.subrange(from as int, i as int),
        decreases to - i,
    {
        out.push(chars[i]);
        assert(chars@.subrange(from as int, i + 1) =~= chars@.subrange(
            from as int,
            i as int,
        ).push(chars@[i as int]));
        i = i + 1;
    }
    out
}

/// `pat` stands in `s` at position `i`.
pub open spec fn occurs_at(s: Seq<char>, pat: Seq<char>, i: int) -> bool {
    0 <= i && i + pat.len() <= s.len() && s.subrange(i, i + pat.len()) == pat
}

/// The first position from `from` on at which `pat` stands in `s`.
pub open spec fn find_from(s: Seq<char>, pat: Seq<char>, from: int) -> Option<int>
    decreases s.len() + 1 - from,
{
    if from < 0 || from + pat.len() > s.len() {
        None
    } else if occurs_at(s, pat, from) {
        Some(from)
    } else {
        find_from(s, pat, from + 1)
    }
}

fn matches_at(s: &[char], pat: &[char], i: usize) -> (r: bool)
    requires
        i + pat@.len() <= s@.len(),
    ensures
        r == occurs_at(s@, pat@, i as int),
{
    let n: usize = s.len();
    let mut k: usize = 0;
    while k < pat.len()
        invariant
            k <= pat@.len(),
            i + pat@.len() <= s@.len(),
            s@.len() == n,
            forall|j: int| 0 <= j < k ==> s@[i + j] == #[trigger] pat@[j],
        decreases pat@.len() - k,
    {
        if s[i + k] != pat[k] {
            assert(s@.subrange(i as int, i + pat@.len())[k as int] != pat@[k as int]);
            return false;
        }
        k = k + 1;
    }
    assert(s@.subrange(i as int, i + pat@.len()) =~= pat@);
    true
}

/// The first position from `from` on at which `pat` stands in `s`.
pub fn find(s: &[char], pat: &[char], from: usize) -> (r: Option<usize>)
    requires
        from <= s@.len(),
    ensures
        r is Some <==> find_from(s@, pat@, from as int) is Some,
        r matches Some(p) ==> find_from(s@, pat@, from as int) == Some(p as int) && from <= p && p
            + pat@.len() <= s@.len() && occurs_at(s@, pat@, p as int),
{
    let n: usize = s.len();
    let mut p: usize = from;
    while p <= n && n - p >= pat.len()
        invariant
            from <= p <= n,
            s@.len() == n,
            find_from(s@, pat@, from as int) == find_from(s@, pat@, p as int),
        decreases s@.len() + 1 - p,
    {
        if matches_at(s, pat, p) {
            return Some(p);
        }
        if p == n {
            assert(find_from(s@, pat@, p as int) == find_from(s@, pat@, p + 1));
            return None;
        }
        p = p + 1;
    }
    None
}

/// Unicode white space.
pub open spec fn is_space(c: char) -> bool {
    ||| '\u{9}' <= c <= '\u{d}'
    ||| c == ' '
    ||| c == '\u{85}'
    ||| c == '\u{a0}'
    ||| c == '\u{1680}'
    ||| '\u{2000}' <= c <= '\u{200a}'
    ||| c == '\u{2028}'
    ||| c == '\u{2029}'
    ||| c == '\u{202f}'
    ||| c == '\u{205f}'
    ||| c == '\u{3000}'
}

fn space(c: char) -> (r: bool)
    ensures
        r == is_space(c),
{
    ('\u{9}' <= c && c <= '\u{d}') || c == ' ' || c == '\u{85}' || c == '\u{a0}' || c == '\u{1680}'
        || ('\u{2000}' <= c && c <= '\u{200a}') || c == '\u{2028}' || c == '\u{2029}' || c
        == '\u{202f}' || c == '\u{205f}' || c == '\u{3000}'
}

/// `s` without the white space at its two ends.
pub open spec fn trimmed(s: Seq<char>) -> Seq<char>
    decreases s.len(),
{
    if s.len() > 0 && is_space(s[0]) {
        trimmed(s.drop_first())
    } else if s.len() > 0 && is_space(s.last()) {
        trimmed(s.drop_last())
    } else {
        s
    }
}

/// The bounds of `s[from..to]` without the white space at its two ends.
pub fn trim_bounds(s: &[char], from: usize, to: usize) -> (r: (usize, usize))
    requires
        from <= to <= s@.len(),
    ensures
        from <= r.0 <= r.1 <= to,
        s@.subrange(r.0 as int, r.1 as int) == trimmed(s@.subrange(from as int, to as int)),
{
    let mut a: usize = from;
    let mut b: usize = to;
    let ghost goal = trimmed(s@.subrange(from as int, to as int));
    while a < b && space(s[a])
        invariant
            from <= a <= b <= to <= s@.len(),
            goal == trimmed(s@.subrange(a as int, b as int)),
        ensures
            a < b ==> !is_space(s@[a as int]),
        decreases b - a,
    {
        assert(s@.subrange(a as int, b as int).drop_first() =~= s@.subrange(a + 1, b as int));
        a = a + 1;
    }
    while a < b && space(s[b - 1])
        invariant
            from <= a <= b <= to <= s@.len(),
            a < b ==> !is_space(s@[a as int]),
            goal == trimmed(s@.subrange(a as int, b as int)),
        ensures
            from <= a <= b <= to,
            a < b ==> !is_space(s@[a as int]),
            a < b ==> !is_space(s@[b - 1]),
        decreases b - a,
    {
        assert(s@.subrange(a as int, b as int)[0] == s@[a as int]);
        assert(s@.subrange(a as int, b as int).drop_last() =~= s@.subrange(a as int, b - 1));
        b = b - 1;
    }
    (a, b)
}

/// Text that was put together can be taken apart: one piece stands for itself, and what two
/// rows of pieces give has the separator between what each of them gives.
pub proof fn law_joined_pieces(a: Seq<Seq<char>>, b: Seq<Seq<char>>, p: Seq<char>, sep: Seq<char>)
    requires
        a.len() > 0,
        b.len() > 0,
    ensures
        joined(seq![p], sep) == p,
        joined(a + b, sep) == joined(a, sep) + sep + joined(b, sep),
    decreases b.len(),
{
    let all = a + b;
    assert(all.drop_last() =~= a + b.drop_last());
    assert(all.last() == b.last());
    if b.len() > 1 {
        law_joined_pieces(a, b.drop_last(), p, sep);
        assert(joined(all, sep) =~= joined(a, sep) + sep + joined(b, sep));
    } else {
        assert(a + b.drop_last() =~= a);
        assert(joined(all, sep) =~= joined(a, sep) + sep + joined(b, sep));
    }
}

/// A search finds the first place: the text stands there, and at no place before it.
pub proof fn law_found_text_is_the_first(s: Seq<char>, pat: Seq<char>, from: int)
    requires
        0 <= from,
    ensures
        match find_from(s, pat, from) {
            Some(p) => from <= p && p + pat.len() <= s.len() && s.subrange(p, p + pat.len()) == pat
                && forall|q: int| from <= q < p ==> !#[trigger] occurs_at(s, pat, q),
            None => forall|q: int|
                from <= q && q + pat.len() <= s.len() ==> s.subrange(q, #[trigger] (q + pat.len()))
                    != pat,
        },
    decreases s.len() + 1 - from,
{
    if from + pat.len() <= s.len() && !occurs_at(s, pat, from) {
        law_found_text_is_the_first(s, pat, from + 1);
    }
}

/// Trimming takes white space from the two ends, all that is there and nothing else.
pub proof fn law_trimmed(s: Seq<char>) -> (a: int)
    ensures
        0 <= a <= a + trimmed(s).len() <= s.len(),
        trimmed(s) == s.subrange(a, a + trimmed(s).len()),
        forall|k: int| 0 <= k < a ==> is_space(#[trigger] s[k]),
        forall|k: int| a + trimmed(s).len() <= k < s.len() ==> is_space(#[trigger] s[k]),
        trimmed(s).len() > 0 ==> !is_space(trimmed(s)[0]) && !is_space(trimmed(s).last()),
    decreases s.len(),
{
    if s.len() > 0 && is_space(s[0]) {
        let t = s.drop_first();
        let a = law_trimmed(t);
        assert(trimmed(s) =~= s.subrange(a + 1, a + 1 + trimmed(s).len()));
        assert forall|k: int| 0 <= k < a + 1 implies is_space(#[trigger] s[k]) by {
            if k > 0 {
                assert(t[k - 1] == s[k]);
            }
        }
        assert forall|k: int| a + 1 + trimmed(s).len() <= k < s.len() implies is_space(
            #[trigger] s[k],
        ) by {
            assert(t[k - 1] == s[k]);
        }
        a + 1
    } else if s.len() > 0 && is_space(s.last()) {
        let t = s.drop_last();
        let a = law_trimmed(t);
        assert(trimmed(s) =~= s.subrange(a, a + trimmed(s).len()));
        assert forall|k: int| 0 <= k < a implies is_space(#[trigger] s[k]) by {
            assert(t[k] == s[k]);
        }
        assert forall|k: int| a + trimmed(s).len() <= k < s.len() implies is_space(
            #[trigger] s[k],
        ) by {
            if k < t.len() {
                assert(t[k] == s[k]);
            }
        }
        a
    } else {
        assert(s.subrange(0, s.len() as int) =~= s);
        0
    }
}

/// The numeral of a negative number is a minus sign and the numeral of its size.
pub proof fn law_signed_decimal(n: int)
    ensures
        n >= 0 ==> signed_decimal(n) == decimal(n),
        n < 0 ==> signed_decimal(n).len() == decimal(-n).len() + 1 && signed_decimal(n)[0] == '-'
            && signed_decimal(n).skip(1) == decimal(-n),
{
    reveal_strlit("-");
    if n < 0 {
        assert(signed_decimal(n).skip(1) =~= decimal(-n));
    }
}

/// White space is the Unicode property of that name.
pub proof fn law_space(c: char)
    ensures
        is_space(c) <==> {
            let n = c as int;
            ||| 9 <= n <= 13
            ||| n == 32 || n == 133 || n == 160 || n == 5760
            ||| 8192 <= n <= 8202
            ||| n == 8232 || n == 8233 || n == 8239 || n == 8287 || n == 12288
        },
{
}

} // verus!
