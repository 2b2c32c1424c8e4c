//! The moments at which the recordings are looked at.
use vstd::prelude::*;

use crate::clock::floor_div;

verus! {

/// How many samples are taken if none are asked for: one every 15 seconds, from 24 to 600.
pub open spec fn default_samples(duration: int) -> int {
    let n = (if duration < 0 {
        0
    } else {
        duration / 1_000_000_000
    }) / 15;
    if n < 24 {
        24
    } else if n > 600 {
        600
    } else {
        n
    }
}

pub open spec fn sample_count(duration: int, samples: Option<usize>) -> int {
    match samples {
        Some(n) => n as int,
        None => default_samples(duration),
    }
}

/// The middle of part `i` if the clip is cut into `n` equal parts, or into parts of one
/// second if those would be shorter; but no later than half a second before the end.
pub open spec fn sample_time(duration: int, n: int, i: int) -> int {
    let middle = if duration >= 1_000_000_000 * n {
        (2 * i + 1) * duration / (2 * n)
    } else {
        (2 * i + 1) * 500_000_000
    };
    if middle > duration - 500_000_000 {
        duration - 500_000_000
    } else {
        middle
    }
}

fn time_of(duration: i64, n: usize, i: usize) -> (r: i64)
    requires
        i < n,
        duration >= i64::MIN + 500_000_000,
    ensures
        r == sample_time(duration as int, n as int, i as int),
{
    let last: i128 = duration as i128 - 500_000_000;
    let odd: u128 = 2 * (i as u128) + 1;
    if duration as i128 >= 1_000_000_000 * n as i128 {
        let d: u128 = duration as u128;
        assert(0 <= odd * d <= 0x1_ffff_ffff_ffff_ffff * 0x7fff_ffff_ffff_ffff) by (nonlinear_arith)
            requires
                0 <= odd <= 0x1_ffff_ffff_ffff_ffff,
                0 <= d <= 0x7fff_ffff_ffff_ffff,
        ;
        proof {
            lemma_part(odd as int, d as int, 2 * n as int);
        }
        let middle: u128 = odd * d / (2 * n as u128);
        if middle as i128 > last {
            last as i64
        } else {
            middle as i64
        }
    } else {
        let middle: i128 = odd as i128 * 500_000_000;
        if middle > last {
            last as i64
        } else {
            middle as i64
        }
    }
}

proof fn lemma_part(a: int, d: int, n: int)
    requires
        0 <= a <= n,
        0 < n,
        0 <= d,
    ensures
        0 <= a * d / n <= d,
{
    assert(0 <= a * d <= n * d) by (nonlinear_arith)
        requires
            0 <= a <= n,
            0 <= d,
    ;
    vstd::arithmetic::div_mod::lemma_div_is_ordered(a * d, n * d, n);
    vstd::arithmetic::div_mod::lemma_div_is_ordered(0, a * d, n);
    vstd::arithmetic::div_mod::lemma_div_multiples_vanish(d, n);
}

/// The moments at which the cloud master is sampled for its layout: in the middle of equal
/// parts, about 15 seconds long unless `samples` says how many there are.
pub fn sample_times(duration: i64, samples: Option<usize>) -> (r: Vec<i64>)
    requires
        duration >= i64::MIN + 500_000_000,
    ensures
        r@.len() == sample_count(duration as int, samples),
        forall|i: int|
            0 <= i < r@.len() ==> #[trigger] r@[i] == sample_time(
                duration as int,
                sample_count(duration as int, samples),
                i,
            ),
{
    let n: usize = match samples {
        Some(n) => n,
        None => {
            let secs: i64 = if duration < 0 { 0 } else { duration / 1_000_000_000 };
            let parts: i64 = secs / 15;
            if parts < 24 {
                24
            } else if parts > 600 {
                600
            } else {
                parts as usize
            }
        },
    };
    let mut out: Vec<i64> = Vec::new();
    let mut i: usize = 0;
    while i < n
        invariant
            i <= n,
            duration >= i64::MIN + 500_000_000,
            out@.len() == i,
            forall|k: int|
                0 <= k < i ==> #[trigger] out@[k] == sample_time(duration as int, n as int, k),
        decreases n - i,
    {
        out.push(time_of(duration, n, i));
        i = i + 1;
    }
    out
}

/// The samples come in order of time, and the last is half a second before the end or
/// earlier.
pub proof fn law_samples_are_in_order(duration: int, n: int, i: int, j: int)
    requires
        0 <= i <= j < n,
    ensures
        sample_time(duration, n, i) <= sample_time(duration, n, j) <= duration - 500_000_000,
{
    if duration >= 1_000_000_000 * n {
        assert((2 * i + 1) * duration <= (2 * j + 1) * duration) by (nonlinear_arith)
            requires
                i <= j,
                duration >= 0,
        ;
        vstd::arithmetic::div_mod::lemma_div_is_ordered(
            (2 * i + 1) * duration,
            (2 * j + 1) * duration,
            2 * n,
        );
    }
}

/// A ninth of a clip, `i` times.
pub open spec fn ninths(duration: int, i: int) -> int {
    duration * i / 9
}

/// Not in the first or last second.
pub open spec fn is_inside(duration: int, t: int) -> bool {
    1_000_000_000 < t < duration - 1_000_000_000
}

/// The first `n` ninths that are not in the first or last second.
pub open spec fn inner_ninths(duration: int, n: int) -> Seq<int>
    decreases n,
{
    if n <= 0 {
        Seq::empty()
    } else if is_inside(duration, ninths(duration, n)) {
        inner_ninths(duration, n - 1).push(ninths(duration, n))
    } else {
        inner_ninths(duration, n - 1)
    }
}

/// The moments at which a participant's feed is sampled for its appearance: eight, equally
/// spaced, without those in the first or last second. A camera can be off for stretches, so
/// one frame is not enough. None for a feed of less than two seconds.
pub fn signature_times(duration: i64) -> (r: Option<Vec<i64>>)
    ensures
        r is Some <==> duration >= 2_000_000_000,
        r matches Some(v) ==> v@.map_values(|t: i64| t as int) == inner_ninths(duration as int, 8),
{
    if duration < 2_000_000_000 {
        return None;
    }
    let mut out: Vec<i64> = Vec::new();
    let mut i: i64 = 1;
    assert(out@.map_values(|t: i64| t as int) =~= inner_ninths(duration as int, 0));
    while i <= 8
        invariant
            1 <= i <= 9,
            duration >= 2_000_000_000,
            out@.map_values(|t: i64| t as int) == inner_ninths(duration as int, i - 1),
        decreases 9 - i,
    {
        assert(0 <= duration * i <= 0x7fff_ffff_ffff_ffff * 8) by (nonlinear_arith)
            requires
                0 <= duration <= 0x7fff_ffff_ffff_ffff,
                1 <= i <= 8,
        ;
        let t: i128 = floor_div(duration as i128 * i as i128, 9);
        if t > 1_000_000_000 && t < duration as i128 - 1_000_000_000 {
            let ghost before = out@;
            out.push(t as i64);
            assert(out@.map_values(|t: i64| t as int) =~= before.map_values(
                |t: i64| t as int,
            ).push(t as int));
        }
        i = i + 1;
    }
    Some(out)
}

/// How many samples are taken: as many as asked for, or else one for each full 15 seconds,
/// but 24 at least and 600 at most.
pub proof fn law_sample_count(duration: int, samples: Option<usize>)
    requires
        duration >= 0,
    ensures
        samples matches Some(n) ==> sample_count(duration, samples) == n,
        samples is None ==> {
            let n = sample_count(duration, samples);
            &&& 24 <= n <= 600
            &&& 24 < n < 600 ==> n * 15_000_000_000 <= duration < (n + 1) * 15_000_000_000
            &&& n == 24 ==> duration < 25 * 15_000_000_000
            &&& n == 600 ==> duration >= 600 * 15_000_000_000
        },
{
}

/// Of a clip long enough for a second each, sample `i` lies in the middle of part `i` of `n`
/// equal ones: what comes before it is `2 i + 1` half parts, to the nanosecond. Of a shorter
/// one the parts last a second each. No sample is in the last half second.
pub proof fn law_samples_are_in_the_middle(duration: int, n: int, i: int)
    requires
        0 <= i < n,
    ensures
        ({
            let t = sample_time(duration, n, i);
            &&& t <= duration - 500_000_000
            &&& duration >= n * 1_000_000_000 ==> 0 <= (2 * i + 1) * duration - 2 * n * t < 2 * n
            &&& duration < n * 1_000_000_000 && t < duration - 500_000_000 ==> t == i
                * 1_000_000_000 + 500_000_000
        }),
{
    if duration >= 1_000_000_000 * n {
        let a = (2 * i + 1) * duration;
        vstd::arithmetic::div_mod::lemma_fundamental_div_mod(a, 2 * n);
        vstd::arithmetic::div_mod::lemma_mod_bound(a, 2 * n);
        let q = a / (2 * n);
        assert(q <= duration - 500_000_000) by (nonlinear_arith)
            requires
                2 * n * q <= (2 * i + 1) * duration,
                i < n,
                0 < n,
                duration >= 1_000_000_000 * n,
        ;
    }
}

proof fn lemma_inner_ninths(duration: int, n: int)
    requires
        n >= 0,
        duration >= 0,
    ensures
        forall|j: int|
            0 <= j < inner_ninths(duration, n).len() ==> 1_000_000_000 < #[trigger] inner_ninths(
                duration,
                n,
            )[j] < duration - 1_000_000_000 && exists|i: int|
                1 <= i <= n && #[trigger] ninths(duration, i) == inner_ninths(duration, n)[j],
        forall|i: int|
            1 <= i <= n && 1_000_000_000 < #[trigger] ninths(duration, i) < duration - 1_000_000_000
                ==> inner_ninths(duration, n).contains(ninths(duration, i)),
    decreases n,
{
    if n > 0 {
        lemma_inner_ninths(duration, n - 1);
        let (before, all) = (inner_ninths(duration, n - 1), inner_ninths(duration, n));
        assert forall|j: int| 0 <= j < all.len() implies 1_000_000_000 < #[trigger] all[j]
            < duration - 1_000_000_000 && exists|i: int|
            1 <= i <= n && #[trigger] ninths(duration, i) == all[j] by {
            if j < before.len() {
                assert(all[j] == before[j]);
                let i = choose|i: int| 1 <= i <= n - 1 && #[trigger] ninths(duration, i) == before[j];
                assert(ninths(duration, i) == all[j]);
            } else {
                assert(ninths(duration, n) == all[j]);
            }
        }
        assert forall|i: int|
            1 <= i <= n && 1_000_000_000 < #[trigger] ninths(duration, i) < duration
                - 1_000_000_000 implies all.contains(ninths(duration, i)) by {
            if i < n {
                let j = choose|j: int| 0 <= j < before.len() && before[j] == ninths(duration, i);
                assert(all[j] == ninths(duration, i));
            } else {
                assert(all[all.len() - 1] == ninths(duration, n));
            }
        }
    }
}

/// A feed is sampled at the eight points that divide it into nine equal parts, to the
/// nanosecond, except those in its first or last second.
pub proof fn law_signature_times(duration: int, i: int, t: int)
    requires
        duration >= 0,
        1 <= i <= 8,
    ensures
        forall|j: int|
            0 <= j < inner_ninths(duration, 8).len() ==> 1_000_000_000 < #[trigger] inner_ninths(
                duration,
                8,
            )[j] < duration - 1_000_000_000,
        9 * t <= i * duration < 9 * t + 9 && 1_000_000_000 < t < duration - 1_000_000_000
            ==> inner_ninths(duration, 8).contains(t),
        inner_ninths(duration, 8).contains(t) ==> exists|k: int|
            1 <= k <= 8 && 9 * t <= #[trigger] (k * duration) < 9 * t + 9,
{
    lemma_inner_ninths(duration, 8);
    let a = duration * i;
    assert(a == i * duration) by (nonlinear_arith)
        requires
            a == duration * i,
    ;
    if 9 * t <= a < 9 * t + 9 {
        assert(ninths(duration, i) == t);
    }
    let all = inner_ninths(duration, 8);
    if all.contains(t) {
        let j = choose|j: int| 0 <= j < all.len() && all[j] == t;
        let k = choose|k: int| 1 <= k <= 8 && #[trigger] ninths(duration, k) == all[j];
        assert(duration * k == k * duration) by (nonlinear_arith);
    }
}

/// The moments at which a feed is sampled come in order.
pub proof fn law_signature_times_are_in_order(duration: int, n: int, j: int, k: int)
    requires
        duration >= 0,
        0 <= j < k < inner_ninths(duration, n).len(),
    ensures
        inner_ninths(duration, n)[j] <= inner_ninths(duration, n)[k],
    decreases n,
{
    let before = inner_ninths(duration, n - 1);
    if k < before.len() {
        law_signature_times_are_in_order(duration, n - 1, j, k);
    } else {
        lemma_inner_ninths(duration, n - 1);
        assert(inner_ninths(duration, n)[j] == before[j]);
        assert(1_000_000_000 < before[j]);
        let i = choose|i: int| 1 <= i <= n - 1 && #[trigger] ninths(duration, i) == before[j];
        assert(duration * i <= duration * n) by (nonlinear_arith)
            requires
                0 <= duration,
                i <= n,
        ;
    }
}

} // verus!
