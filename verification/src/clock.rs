//! Times in nanoseconds as the text of decimal seconds, and rounded to milliseconds.
use vstd::arithmetic::div_mod::{lemma_fundamental_div_mod, lemma_mod_bound};
use vstd::prelude::*;

use crate::offset::{all_digits, law_decimal_is_read_back, number_in, number_of};
use crate::text::{decimal, push_decimal, push_three_digits, three_digits};

verus! {

/// `a / d` to the nearest integer; halfway between two, the even one.
pub open spec fn round_half_even(a: int, d: int) -> int {
    let (q, r) = (a / d, a % d);
    if 2 * r > d || (2 * r == d && q % 2 == 1) {
        q + 1
    } else {
        q
    }
}

/// Milliseconds nearest to a time; halfway between two, the one farther from zero.
pub open spec fn nearest_ms(ns: int) -> int {
    if ns < 0 {
        -((-ns + 500_000) / 1_000_000)
    } else {
        (ns + 500_000) / 1_000_000
    }
}

/// A time as seconds with three decimals.
pub open spec fn seconds_text(ns: int) -> Seq<char> {
    let ms = round_half_even(if ns < 0 {
        -ns
    } else {
        ns
    }, 1_000_000);
    let text = decimal(ms / 1000) + "."@ + three_digits(ms % 1000);
    if ns < 0 {
        "-"@ + text
    } else {
        text
    }
}

/// Format a time for `-ss` and `-t`: seconds with three decimals, frame-accurate.
pub fn fmt_t(ns: i128) -> (r: String)
    ensures
        r@ == seconds_text(ns as int),
{
    // `ns + 1` is representable without its sign, which `ns` need not be.
    let size: u128 = if ns < 0 { (-(ns + 1)) as u128 + 1 } else { ns as u128 };
    let (q, rest) = (size / 1_000_000, size % 1_000_000);
    let ms: u128 = if rest > 500_000 || (rest == 500_000 && q % 2 == 1) { q + 1 } else { q };
    let mut out = String::new();
    if ns < 0 {
        out.append("-");
    }
    push_decimal(&mut out, ms / 1000);
    out.append(".");
    push_three_digits(&mut out, (ms % 1000) as u32);
    assert(out@ =~= seconds_text(ns as int));
    out
}

/// The greatest integer that is at most `a / d`.
pub fn floor_div(a: i128, d: i128) -> (r: i128)
    requires
        d > 0,
        a > i128::MIN + d,
    ensures
        r == a as int / d as int,
{
    if a >= 0 {
        a / d
    } else {
        let up: i128 = (d - 1 - a) / d;
        proof {
            lemma_negative_division(a as int, d as int);
        }
        -up
    }
}

proof fn lemma_negative_division(a: int, d: int)
    requires
        d > 0,
    ensures
        a / d == -((d - 1 - a) / d),
{
    lemma_fundamental_div_mod(a, d);
    lemma_mod_bound(a, d);
    lemma_fundamental_div_mod(d - 1 - a, d);
    lemma_mod_bound(d - 1 - a, d);
    let (p, q) = (a / d, (d - 1 - a) / d);
    assert(d * p + d * q == d * (p + q)) by (nonlinear_arith);
    assert(p + q == 0) by (nonlinear_arith)
        requires
            -d < d * (p + q) < d,
            d > 0,
    ;
}

/// Milliseconds nearest to a time; halfway between two, the one farther from zero.
pub fn to_ms(ns: i64) -> (r: i64)
    ensures
        r == nearest_ms(ns as int),
{
    let wide: i128 = ns as i128;
    if wide < 0 {
        (-((-wide + 500_000) / 1_000_000)) as i64
    } else {
        ((wide + 500_000) / 1_000_000) as i64
    }
}

/// A time in whole milliseconds is the nearest one: half a millisecond away at most, and
/// halfway between two the one farther from zero. It changes its sign with the time.
pub proof fn law_nearest_ms(ns: int)
    ensures
        -500_000 <= nearest_ms(ns) * 1_000_000 - ns <= 500_000,
        ns >= 0 ==> nearest_ms(ns) * 1_000_000 - ns != -500_000,
        nearest_ms(-ns) == -nearest_ms(ns),
{
}

/// A quotient that is rounded to the nearest integer is half a unit away at most, and even
/// where two are as near.
pub proof fn law_round_half_even(a: int, d: int)
    requires
        d > 0,
    ensures
        ({
            let q = round_half_even(a, d);
            &&& -d <= 2 * (q * d - a) <= d
            &&& (2 * (q * d - a) == d || 2 * (q * d - a) == -d) ==> q % 2 == 0
        }),
{
    lemma_fundamental_div_mod(a, d);
    lemma_mod_bound(a, d);
    let (q, r) = (a / d, a % d);
    assert((q + 1) * d == d * q + d) by (nonlinear_arith);
    assert(q * d == d * q) by (nonlinear_arith);
}

proof fn lemma_three_digits(n: int)
    requires
        0 <= n < 1000,
    ensures
        all_digits(three_digits(n)),
        number_of(three_digits(n)) == n,
{
    let d = three_digits(n);
    assert(d[0] as int == 48 + n / 100);
    assert(d[1] as int == 48 + n / 10 % 10);
    assert(d[2] as int == 48 + n % 10);
    assert(number_in(d, 0, 0) == 0);
    assert(number_in(d, 0, 1) == 10 * number_in(d, 0, 0) + (d[0] as int - 48));
    assert(number_in(d, 0, 2) == 10 * number_in(d, 0, 1) + (d[1] as int - 48));
    assert(number_in(d, 0, 3) == 10 * number_in(d, 0, 2) + (d[2] as int - 48));
}

/// The text of a time is read back as that time: a minus sign if it is negative, the whole
/// seconds, a point and three digits of thousandths, which together are the nearest
/// millisecond.
pub proof fn law_seconds_are_read_back(ns: int)
    ensures
        ({
            let t = seconds_text(ns);
            let size = if ns < 0 {
                -ns
            } else {
                ns
            };
            let from = if ns < 0 {
                1int
            } else {
                0
            };
            let point = t.len() - 4;
            let (whole, part) = (t.subrange(from, point), t.subrange(point + 1, t.len() as int));
            let ms = 1000 * number_of(whole) + number_of(part);
            &&& from < point
            &&& ns < 0 ==> t[0] == '-'
            &&& t[point] == '.'
            &&& all_digits(whole)
            &&& all_digits(part)
            &&& -500_000 <= 1_000_000 * ms - size <= 500_000
        }),
{
    reveal_strlit(".");
    reveal_strlit("-");
    let t = seconds_text(ns);
    let size = if ns < 0 {
        -ns
    } else {
        ns
    };
    let from = if ns < 0 {
        1int
    } else {
        0
    };
    let ms = round_half_even(size, 1_000_000);
    law_round_half_even(size, 1_000_000);
    let (whole, part) = (decimal(ms / 1000), three_digits(ms % 1000));
    law_decimal_is_read_back(ms / 1000);
    lemma_three_digits(ms % 1000);
    let point = t.len() - 4;
    assert(t.subrange(from, point) =~= whole);
    assert(t.subrange(point + 1, t.len() as int) =~= part);
}

} // verus!
