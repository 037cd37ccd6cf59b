//! Ranking: the order in which a list is shown, largest key first, equals in
//! the order in which they stood.
use vstd::prelude::*;

verus! {

/// Item `a` is shown before item `b`.
pub open spec fn before(keys: Seq<u64>, a: int, b: int) -> bool {
    keys[a] > keys[b] || (keys[a] == keys[b] && a < b)
}

/// `order` lists every index of `keys`, and lists them as they are shown.
pub open spec fn ranked(keys: Seq<u64>, order: Seq<int>) -> bool {
    &&& order.len() == keys.len()
    &&& forall|i: int| 0 <= i < order.len() ==> 0 <= #[trigger] order[i] < keys.len()
    &&& forall|v: int| 0 <= v < keys.len() ==> #[trigger] order.contains(v)
    &&& forall|i: int, j: int| 0 <= i < j < order.len() ==> before(keys, #[trigger] order[i], #[trigger] order[j])
}

/// The indices of `keys` in the order in which they are shown.
pub open spec fn ranking(keys: Seq<u64>) -> Seq<int> {
    choose|order: Seq<int>| ranked(keys, order)
}

/// The items at these indices.
pub open spec fn picked<T>(items: Seq<T>, order: Seq<int>) -> Seq<T> {
    order.map_values(|i: int| items[i])
}

/// There is only one order in which a list is shown.
pub proof fn ranking_is_unique(keys: Seq<u64>, a: Seq<int>, b: Seq<int>)
    requires
        ranked(keys, a),
        ranked(keys, b),
    ensures
        a == b,
{
    lemma_same_prefix(keys, a, b, a.len());
    assert(a =~= b);
}

proof fn lemma_same_prefix(keys: Seq<u64>, a: Seq<int>, b: Seq<int>, n: nat)
    requires
        ranked(keys, a),
        ranked(keys, b),
        n <= a.len(),
    ensures
        forall|i: int| 0 <= i < n ==> a[i] == b[i],
    decreases n,
{
    if n > 0 {
        let i = n - 1;
        lemma_same_prefix(keys, a, b, i as nat);
        let x = a[i];
        let y = b[i];
        assert(b.contains(x));
        assert(a.contains(y));
        let p = choose|p: int| 0 <= p < b.len() && b[p] == x;
        let q = choose|q: int| 0 <= q < a.len() && a[q] == y;
        if p < i {
            assert(a[p] == x);
            assert(before(keys, a[p], a[i]));
        }
        if q < i {
            assert(b[q] == y);
            assert(before(keys, b[q], b[i]));
        }
        if p > i {
            assert(before(keys, b[i], b[p]));
            if q > i {
                assert(before(keys, a[i], a[q]));
            }
        }
    }
}

/// The indices of `keys` in the order in which they are shown.
pub fn rank(keys: &Vec<u64>) -> (r: Vec<usize>)
    ensures
        r@.map_values(|i: usize| i as int) == ranking(keys@),
        ranked(keys@, ranking(keys@)),
        forall|i: int| 0 <= i < r@.len() ==> #[trigger] r@[i] < keys@.len(),
        r@.len() == keys@.len(),
{
    let mut r: Vec<usize> = Vec::new();
    let mut k: usize = 0;
    let ghost idx = |i: usize| i as int;
    proof {
        assert(ranked(keys@.take(0), r@.map_values(idx)));
    }
    while k < keys.len()
        invariant
            k <= keys@.len(),
            idx == (|i: usize| i as int),
            ranked(keys@.take(k as int), r@.map_values(idx)),
        decreases keys@.len() - k,
    {
        let ghost cur = keys@.take(k as int);
        let ghost o = r@.map_values(idx);
        let mut p: usize = 0;
        proof {
            assert forall|i: int| 0 <= i < r@.len() implies #[trigger] r@[i] < k && r@[i] == o[i] by {
                assert(o[i] == r@[i]);
            }
        }
        while p < r.len() && keys[r[p]] >= keys[k]
            invariant
                k < keys@.len(),
                cur == keys@.take(k as int),
                idx == (|i: usize| i as int),
                o == r@.map_values(idx),
                ranked(cur, o),
                p <= r@.len(),
                forall|i: int| 0 <= i < p ==> keys@[#[trigger] o[i]] >= keys@[k as int],
                forall|i: int| 0 <= i < r@.len() ==> #[trigger] r@[i] == o[i],
                forall|i: int| 0 <= i < r@.len() ==> #[trigger] r@[i] < k,
            ensures
                p <= r@.len(),
                forall|i: int| 0 <= i < p ==> keys@[#[trigger] o[i]] >= keys@[k as int],
                p < r@.len() ==> keys@[o[p as int]] < keys@[k as int],
            decreases r@.len() - p,
        {
            proof {
                assert(o[p as int] == r@[p as int]);
            }
            p = p + 1;
        }
        r.insert(p, k);
        proof {
            lemma_insert(keys@, k as int, o, p as int);
            assert(r@.map_values(idx) =~= o.insert(p as int, k as int));
        }
        k = k + 1;
    }
    proof {
        assert(keys@.take(keys@.len() as int) =~= keys@);
        let o = r@.map_values(idx);
        ranking_is_unique(keys@, o, ranking(keys@));
        assert forall|i: int| 0 <= i < r@.len() implies #[trigger] r@[i] < keys@.len() by {
            assert(o[i] == r@[i]);
        }
    }
    r
}

proof fn lemma_insert(keys: Seq<u64>, k: int, o: Seq<int>, p: int)
    requires
        0 <= k < keys.len(),
        ranked(keys.take(k), o),
        0 <= p <= o.len(),
        forall|i: int| 0 <= i < p ==> keys[#[trigger] o[i]] >= keys[k],
        p < o.len() ==> keys[o[p]] < keys[k],
    ensures
        ranked(keys.take(k + 1), o.insert(p, k)),
{
    let cur = keys.take(k);
    let next = keys.take(k + 1);
    let n = o.insert(p, k);
    assert forall|i: int| 0 <= i < n.len() implies 0 <= #[trigger] n[i] < next.len() by {
        if i < p {
            assert(n[i] == o[i]);
        } else if i > p {
            assert(n[i] == o[i - 1]);
        }
    }
    assert forall|v: int| 0 <= v < next.len() implies #[trigger] n.contains(v) by {
        if v == k {
            assert(n[p] == k);
        } else {
            assert(o.contains(v));
            let i = choose|i: int| 0 <= i < o.len() && o[i] == v;
            if i < p {
                assert(n[i] == v);
            } else {
                assert(n[i + 1] == v);
            }
        }
    }
    assert forall|i: int, j: int| 0 <= i < j < n.len() implies before(
        next,
        #[trigger] n[i],
        #[trigger] n[j],
    ) by {
        if i < p {
            assert(n[i] == o[i]);
        } else if i > p {
            assert(n[i] == o[i - 1]);
        }
        if j < p {
            assert(n[j] == o[j]);
        } else if j > p {
            assert(n[j] == o[j - 1]);
        }
        if i != p && j != p {
            let a = if i < p {
                i
            } else {
                i - 1
            };
            let b = if j < p {
                j
            } else {
                j - 1
            };
            assert(before(cur, o[a], o[b]));
        } else if i == p {
            // j > p: o[j - 1] is not before o[p], whose key is smaller than keys[k]
            if j - 1 > p {
                assert(before(cur, o[p], o[j - 1]));
            }
        } else {
            // j == p, i < p
            assert(keys[o[i]] >= keys[k]);
        }
    }
}

/// The place of index `k` in an order of the indices before it.
proof fn lemma_place(keys: Seq<u64>, k: int, o: Seq<int>, from: int) -> (p: int)
    requires
        0 <= k < keys.len(),
        0 <= from <= o.len(),
        forall|i: int| 0 <= i < from ==> keys[#[trigger] o[i]] >= keys[k],
    ensures
        from <= p <= o.len(),
        forall|i: int| 0 <= i < p ==> keys[#[trigger] o[i]] >= keys[k],
        p < o.len() ==> keys[o[p]] < keys[k],
    decreases o.len() - from,
{
    if from < o.len() && keys[o[from]] >= keys[k] {
        lemma_place(keys, k, o, from + 1)
    } else {
        from
    }
}

proof fn lemma_order(keys: Seq<u64>, k: int) -> (o: Seq<int>)
    requires
        0 <= k <= keys.len(),
    ensures
        ranked(keys.take(k), o),
    decreases k,
{
    if k == 0 {
        Seq::empty()
    } else {
        let o = lemma_order(keys, k - 1);
        let p = lemma_place(keys, k - 1, o, 0);
        lemma_insert(keys, k - 1, o, p);
        o.insert(p, k - 1)
    }
}

/// Every list can be ranked: there is an order that lists every index once, the
/// larger keys first.
pub proof fn ranking_exists(keys: Seq<u64>)
    ensures
        ranked(keys, ranking(keys)),
        ranking(keys).no_duplicates(),
{
    let o = lemma_order(keys, keys.len() as int);
    assert(keys.take(keys.len() as int) =~= keys);
    assert(ranked(keys, o));
    let r = ranking(keys);
    assert forall|i: int, j: int| 0 <= i < r.len() && 0 <= j < r.len() && i != j implies r[i]
        != r[j] by {
        if i < j {
            assert(before(keys, r[i], r[j]));
        } else {
            assert(before(keys, r[j], r[i]));
        }
    }
}

} // verus!
