//! Stable ordering by an integer key.
use vstd::prelude::*;

verus! {

/// `x` put into `s` behind every entry whose key is not greater than its own.
pub open spec fn insert_by<T>(s: Seq<T>, x: T, key: spec_fn(T) -> int) -> Seq<T>
    decreases s.len(),
{
    if s.len() > 0 && key(s.last()) > key(x) {
        insert_by(s.drop_last(), x, key).push(s.last())
    } else {
        s.push(x)
    }
}

/// `s` in ascending order of `key`; entries with equal keys stay in their order.
pub open spec fn sorted_by<T>(s: Seq<T>, key: spec_fn(T) -> int) -> Seq<T>
    decreases s.len(),
{
    if s.len() == 0 {
        Seq::empty()
    } else {
        insert_by(sorted_by(s.drop_last(), key), s.last(), key)
    }
}

pub open spec fn is_ascending<T>(s: Seq<T>, key: spec_fn(T) -> int) -> bool {
    forall|i: int, j: int| 0 <= i <= j < s.len() ==> key(#[trigger] s[i]) <= key(#[trigger] s[j])
}

proof fn lemma_insert_by<T>(s: Seq<T>, x: T, key: spec_fn(T) -> int)
    requires
        is_ascending(s, key),
    ensures
        is_ascending(insert_by(s, x, key), key),
        insert_by(s, x, key).len() == s.len() + 1,
        insert_by(s, x, key).to_multiset() == s.to_multiset().insert(x),
        forall|i: int|
            0 <= i <= s.len() ==> (#[trigger] insert_by(s, x, key)[i] == x || exists|j: int|
                0 <= j < s.len() && insert_by(s, x, key)[i] == s[j]),
    decreases s.len(),
{
    broadcast use vstd::seq_lib::group_to_multiset_ensures;

    let r = insert_by(s, x, key);
    if s.len() > 0 && key(s.last()) > key(x) {
        let t = insert_by(s.drop_last(), x, key);
        lemma_insert_by(s.drop_last(), x, key);
        assert(s =~= s.drop_last().push(s.last()));
        assert forall|i: int| 0 <= i < t.len() implies key(#[trigger] t[i]) <= key(s.last()) by {
            if t[i] != x {
                let j = choose|j: int| 0 <= j < s.drop_last().len() && t[i] == s.drop_last()[j];
                assert(s[j] == t[i]);
                assert(key(s[j]) <= key(s[s.len() - 1]));
            }
        }
        assert forall|i: int| 0 <= i <= s.len() implies (#[trigger] r[i] == x || exists|j: int|
            0 <= j < s.len() && r[i] == s[j]) by {
            if i < s.len() {
                assert(r[i] == t[i]);
                if t[i] != x {
                    let j = choose|j: int| 0 <= j < s.drop_last().len() && t[i] == s.drop_last()[j];
                    assert(r[i] == s[j]);
                }
            } else {
                assert(r[i] == s[s.len() - 1]);
            }
        }
        assert(r.to_multiset() =~= s.to_multiset().insert(x));
    } else {
        assert forall|i: int| 0 <= i <= s.len() implies (#[trigger] r[i] == x || exists|j: int|
            0 <= j < s.len() && r[i] == s[j]) by {
            if i < s.len() {
                assert(r[i] == s[i]);
            }
        }
        assert forall|i: int, j: int| 0 <= i <= j < r.len() implies key(#[trigger] r[i]) <= key(
            #[trigger] r[j],
        ) by {
            if j == s.len() && i < s.len() {
                assert(key(s[i]) <= key(s[s.len() - 1]));
            }
        }
    }
}

/// Sorting gives an ascending arrangement of the same entries.
pub proof fn lemma_sorted_by<T>(s: Seq<T>, key: spec_fn(T) -> int)
    ensures
        is_ascending(sorted_by(s, key), key),
        sorted_by(s, key).len() == s.len(),
        sorted_by(s, key).to_multiset() == s.to_multiset(),
    decreases s.len(),
{
    broadcast use vstd::seq_lib::group_to_multiset_ensures;

    if s.len() > 0 {
        lemma_sorted_by(s.drop_last(), key);
        lemma_insert_by(sorted_by(s.drop_last(), key), s.last(), key);
        assert(s =~= s.drop_last().push(s.last()));
    } else {
        assert(s =~= Seq::<T>::empty());
    }
}

/// A property of all entries survives sorting.
pub proof fn lemma_sorted_by_all<T>(s: Seq<T>, key: spec_fn(T) -> int, p: spec_fn(T) -> bool)
    requires
        forall|i: int| 0 <= i < s.len() ==> p(#[trigger] s[i]),
    ensures
        forall|i: int| 0 <= i < sorted_by(s, key).len() ==> p(#[trigger] sorted_by(s, key)[i]),
    decreases s.len(),
{
    if s.len() > 0 {
        let t = sorted_by(s.drop_last(), key);
        lemma_sorted_by(s.drop_last(), key);
        assert forall|i: int| 0 <= i < s.drop_last().len() implies p(
            #[trigger] s.drop_last()[i],
        ) by {
            assert(s.drop_last()[i] == s[i]);
        }
        lemma_sorted_by_all(s.drop_last(), key, p);
        lemma_insert_by(t, s.last(), key);
        let r = insert_by(t, s.last(), key);
        assert forall|i: int| 0 <= i < r.len() implies p(#[trigger] r[i]) by {
            if r[i] != s.last() {
                let j = choose|j: int| 0 <= j < t.len() && r[i] == t[j];
                assert(p(t[j]));
            } else {
                assert(s.last() == s[s.len() - 1]);
            }
        }
    }
}

proof fn lemma_insert_by_map<T, U>(
    s: Seq<T>,
    x: T,
    f: spec_fn(T) -> U,
    key: spec_fn(U) -> int,
)
    ensures
        insert_by(s.map_values(f), f(x), key) == insert_by(
            s,
            x,
            |t: T| key(f(t)),
        ).map_values(f),
    decreases s.len(),
{
    let k2 = |t: T| key(f(t));
    if s.len() > 0 && key(f(s.last())) > key(f(x)) {
        lemma_insert_by_map(s.drop_last(), x, f, key);
        assert(s.map_values(f).drop_last() =~= s.drop_last().map_values(f));
        assert(s.map_values(f).last() == f(s.last()));
        assert(insert_by(s.drop_last(), x, k2).push(s.last()).map_values(f) =~= insert_by(
            s.drop_last(),
            x,
            k2,
        ).map_values(f).push(f(s.last())));
    } else {
        if s.len() > 0 {
            assert(s.map_values(f).last() == f(s.last()));
        }
        assert(s.push(x).map_values(f) =~= s.map_values(f).push(f(x)));
    }
}

/// Sorting images by a key is sorting the originals by the key of their image.
pub proof fn lemma_sorted_by_map<T, U>(s: Seq<T>, f: spec_fn(T) -> U, key: spec_fn(U) -> int)
    ensures
        sorted_by(s.map_values(f), key) == sorted_by(s, |t: T| key(f(t))).map_values(f),
    decreases s.len(),
{
    let k2 = |t: T| key(f(t));
    if s.len() > 0 {
        lemma_sorted_by_map(s.drop_last(), f, key);
        assert(s.map_values(f).drop_last() =~= s.drop_last().map_values(f));
        assert(s.map_values(f).last() == f(s.last()));
        lemma_insert_by_map(sorted_by(s.drop_last(), k2), s.last(), f, key);
    } else {
        assert(s.map_values(f) =~= Seq::<U>::empty());
        assert(sorted_by(s, k2).map_values(f) =~= Seq::<U>::empty());
    }
}

/// The positions `0`, `1`, ... below `n`.
pub open spec fn positions(n: int) -> Seq<usize> {
    Seq::new(n as nat, |i: int| i as usize)
}

/// The positions of `keys`, arranged by key.
pub open spec fn order_of(keys: Seq<i128>) -> Seq<usize> {
    sorted_by(positions(keys.len() as int), |i: usize| keys[i as int] as int)
}

/// A sequence read through `order_of` its keys is the sequence sorted by key.
pub proof fn lemma_order_of<T>(s: Seq<T>, keys: Seq<i128>, key: spec_fn(T) -> int)
    requires
        s.len() == keys.len(),
        s.len() <= usize::MAX,
        forall|i: int| 0 <= i < s.len() ==> #[trigger] keys[i] == key(s[i]),
    ensures
        order_of(keys).len() == s.len(),
        forall|i: int| 0 <= i < s.len() ==> #[trigger] order_of(keys)[i] < s.len(),
        order_of(keys).map_values(|i: usize| s[i as int]) == sorted_by(s, key),
{
    let n = s.len() as int;
    let f = |i: usize| s[i as int];
    let k1 = |i: usize| keys[i as int] as int;
    let k2 = |i: usize| key(f(i));
    lemma_sorted_by(positions(n), k1);
    lemma_sorted_by_all(positions(n), k1, |i: usize| i < n);
    assert forall|i: int| 0 <= i < n implies #[trigger] order_of(keys)[i] < n by {
        assert((|i: usize| i < n)(sorted_by(positions(n), k1)[i]));
    }
    assert(positions(n).map_values(f) =~= s);
    lemma_sorted_by_map(positions(n), f, key);
    lemma_sorted_by_same_keys(positions(n), k1, k2);
}

proof fn lemma_sorted_by_same_keys<T>(s: Seq<T>, k1: spec_fn(T) -> int, k2: spec_fn(T) -> int)
    requires
        forall|i: int| 0 <= i < s.len() ==> k1(#[trigger] s[i]) == k2(s[i]),
    ensures
        sorted_by(s, k1) == sorted_by(s, k2),
    decreases s.len(),
{
    if s.len() > 0 {
        let t = s.drop_last();
        assert forall|i: int| 0 <= i < t.len() implies k1(#[trigger] t[i]) == k2(t[i]) by {
            assert(t[i] == s[i]);
        }
        lemma_sorted_by_same_keys(t, k1, k2);
        let p = |x: T| k1(x) == k2(x);
        assert forall|i: int| 0 <= i < t.len() implies p(#[trigger] t[i]) by {}
        lemma_sorted_by_all(t, k1, p);
        let u = sorted_by(t, k1);
        assert forall|i: int| 0 <= i < u.len() implies k1(#[trigger] u[i]) == k2(u[i]) by {
            assert(p(u[i]));
        }
        assert(s.last() == s[s.len() - 1]);
        lemma_insert_by_same_keys(u, s.last(), k1, k2);
    }
}

proof fn lemma_insert_by_same_keys<T>(
    s: Seq<T>,
    x: T,
    k1: spec_fn(T) -> int,
    k2: spec_fn(T) -> int,
)
    requires
        forall|i: int| 0 <= i < s.len() ==> k1(#[trigger] s[i]) == k2(s[i]),
        k1(x) == k2(x),
    ensures
        insert_by(s, x, k1) == insert_by(s, x, k2),
    decreases s.len(),
{
    if s.len() > 0 {
        assert(s.last() == s[s.len() - 1]);
        let t = s.drop_last();
        assert forall|i: int| 0 <= i < t.len() implies k1(#[trigger] t[i]) == k2(t[i]) by {
            assert(t[i] == s[i]);
        }
        lemma_insert_by_same_keys(t, x, k1, k2);
    }
}

proof fn lemma_insert_by_at<T>(s: Seq<T>, x: T, key: spec_fn(T) -> int, p: int)
    requires
        0 <= p <= s.len(),
        forall|i: int| p <= i < s.len() ==> key(#[trigger] s[i]) > key(x),
        p > 0 ==> key(s[p - 1]) <= key(x),
    ensures
        insert_by(s, x, key) == s.insert(p, x),
    decreases s.len(),
{
    if p < s.len() {
        assert(s.last() == s[s.len() - 1]);
        let t = s.drop_last();
        assert forall|i: int| p <= i < t.len() implies key(#[trigger] t[i]) > key(x) by {
            assert(t[i] == s[i]);
        }
        lemma_insert_by_at(t, x, key, p);
        assert(s.insert(p, x) =~= t.insert(p, x).push(s.last()));
    } else {
        assert(s.insert(p, x) =~= s.push(x));
    }
}

/// The positions of `keys` in ascending order of key, ties in order of position.
pub fn sorted_positions(keys: &Vec<i128>) -> (r: Vec<usize>)
    ensures
        r@ == order_of(keys@),
        r@.len() == keys@.len(),
        forall|i: int| 0 <= i < r@.len() ==> #[trigger] r@[i] < keys@.len(),
{
    let n: usize = keys.len();
    let ghost key = |i: usize| keys@[i as int] as int;
    let mut out: Vec<usize> = Vec::new();
    let mut i: usize = 0;
    while i < n
        invariant
            i <= n,
            n == keys@.len(),
            key == (|i: usize| keys@[i as int] as int),
            out@ == sorted_by(positions(i as int), key),
            out@.len() == i,
            forall|k: int| 0 <= k < out@.len() ==> #[trigger] out@[k] < n,
        decreases n - i,
    {
        let x: i128 = keys[i];
        let mut p: usize = out.len();
        while p > 0 && keys[out[p - 1]] > x
            invariant
                p <= out@.len(),
                n == keys@.len(),
                i < n,
                x == keys@[i as int],
                forall|k: int| 0 <= k < out@.len() ==> #[trigger] out@[k] < n,
                forall|k: int| p <= k < out@.len() ==> keys@[#[trigger] out@[k] as int] > x,
            ensures
                p <= out@.len(),
                forall|k: int| p <= k < out@.len() ==> keys@[#[trigger] out@[k] as int] > x,
                p > 0 ==> keys@[out@[p - 1] as int] <= x,
            decreases p,
        {
            p = p - 1;
        }
        proof {
            let s = positions(i + 1);
            assert(s.drop_last() =~= positions(i as int));
            assert(s.last() == i);
            lemma_insert_by_at(out@, i, key, p as int);
        }
        let ghost before = out@;
        out.insert(p, i);
        assert forall|k: int| 0 <= k < out@.len() implies #[trigger] out@[k] < n by {
            if k < p {
                assert(out@[k] == before[k]);
            } else if k > p {
                assert(out@[k] == before[k - 1]);
            }
        }
        i = i + 1;
    }
    out
}

/// Which of the entries have the key `v`.
pub open spec fn with_key<T>(s: Seq<T>, key: spec_fn(T) -> int, v: int) -> Seq<T>
    decreases s.len(),
{
    if s.len() == 0 {
        Seq::empty()
    } else if key(s.last()) == v {
        with_key(s.drop_last(), key, v).push(s.last())
    } else {
        with_key(s.drop_last(), key, v)
    }
}

proof fn lemma_insert_keeps_order<T>(s: Seq<T>, x: T, key: spec_fn(T) -> int, v: int)
    ensures
        with_key(insert_by(s, x, key), key, v) == with_key(s.push(x), key, v),
    decreases s.len(),
{
    assert(s.push(x).drop_last() =~= s);
    if s.len() > 0 && key(s.last()) > key(x) {
        let t = s.drop_last();
        lemma_insert_keeps_order(t, x, key, v);
        let r = insert_by(t, x, key);
        assert(r.push(s.last()).drop_last() =~= r);
        assert(t.push(x).drop_last() =~= t);
        assert(insert_by(s, x, key) == r.push(s.last()));
        let before = with_key(t, key, v);
        assert(with_key(r, key, v) == if key(x) == v {
            before.push(x)
        } else {
            before
        });
        assert(with_key(s.push(x), key, v) == if key(x) == v {
            with_key(s, key, v).push(x)
        } else {
            with_key(s, key, v)
        });
    }
}

/// Sorting puts the entries in ascending order of their keys, loses and adds none, and keeps
/// those with one key in their order.
pub proof fn law_sorting_is_stable<T>(s: Seq<T>, key: spec_fn(T) -> int, v: int)
    ensures
        forall|i: int, j: int|
            0 <= i <= j < s.len() ==> key(#[trigger] sorted_by(s, key)[i]) <= key(
                #[trigger] sorted_by(s, key)[j],
            ),
        sorted_by(s, key).to_multiset() == s.to_multiset(),
        sorted_by(s, key).len() == s.len(),
        with_key(sorted_by(s, key), key, v) == with_key(s, key, v),
    decreases s.len(),
{
    lemma_sorted_by(s, key);
    if s.len() > 0 {
        let t = s.drop_last();
        law_sorting_is_stable(t, key, v);
        let r = sorted_by(t, key);
        lemma_insert_keeps_order(r, s.last(), key, v);
        assert(r.push(s.last()).drop_last() =~= r);
    }
}

} // verus!
