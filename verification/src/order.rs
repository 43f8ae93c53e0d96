//! Stable orders: in which sequence the items of a list come when they are sorted by a key.
use vstd::prelude::*;

verus! {

/// `order` with the index `i` put behind all indexes whose key is not above the key of `i`.
pub open spec fn put_in_order(order: Seq<int>, keys: Seq<int>, i: int) -> Seq<int>
    decreases order.len(),
{
    if order.len() == 0 {
        seq![i]
    } else if keys[order.last()] > keys[i] {
        put_in_order(order.drop_last(), keys, i).push(order.last())
    } else {
        order.push(i)
    }
}

/// The indexes of `keys` by ascending key; those with equal keys keep their sequence.
pub open spec fn stable_order(keys: Seq<int>) -> Seq<int> {
    order_of_first(keys, keys.len())
}

/// The order of the first `n` keys.
pub open spec fn order_of_first(keys: Seq<int>, n: nat) -> Seq<int>
    decreases n,
{
    if n == 0 {
        seq![]
    } else {
        put_in_order(order_of_first(keys, (n - 1) as nat), keys, n - 1)
    }
}

pub open spec fn ints(v: Seq<usize>) -> Seq<int> {
    Seq::new(v.len(), |i: int| v[i] as int)
}

/// The keys, negated where the order is to be descending.
pub open spec fn signed_keys(keys: Seq<u128>, descending: bool) -> Seq<int> {
    Seq::new(
        keys.len(),
        |i: int|
            if descending {
                -(keys[i] as int)
            } else {
                keys[i] as int
            },
    )
}

/// The items of `s` at the indexes of `order`.
pub open spec fn arranged<T>(s: Seq<T>, order: Seq<int>) -> Seq<T> {
    Seq::new(order.len(), |i: int| s[order[i]])
}

/// Ascending indexes below `n`.
pub open spec fn ascending_below(v: Seq<int>, n: int) -> bool {
    &&& forall|i: int| 0 <= i < v.len() ==> 0 <= #[trigger] v[i] < n
    &&& forall|i: int, j: int| 0 <= i < j < v.len() ==> #[trigger] v[i] < #[trigger] v[j]
}

/// Some of the items, in the sequence in which they stand.
pub open spec fn is_subsequence<T>(some: Seq<T>, all: Seq<T>) -> bool {
    exists|v: Seq<int>| ascending_below(v, all.len() as int) && some == #[trigger] arranged(all, v)
}

/// Indexes below `n`, each at most once.
pub open spec fn distinct_below(order: Seq<int>, n: int) -> bool {
    &&& forall|i: int| 0 <= i < order.len() ==> 0 <= #[trigger] order[i] < n
    &&& forall|i: int, j: int| 0 <= i < j < order.len() ==> #[trigger] order[i] != #[trigger] order[j]
}

pub open spec fn keys_ascend(order: Seq<int>, keys: Seq<int>) -> bool {
    forall|i: int, j: int|
        0 <= i < j < order.len() ==> {
            let a = #[trigger] order[i];
            let b = #[trigger] order[j];
            keys[a] < keys[b] || keys[a] == keys[b] && a < b
        }
}

proof fn lemma_put_in_order(order: Seq<int>, keys: Seq<int>, n: int)
    requires
        0 <= n,
        distinct_below(order, n),
        keys_ascend(order, keys),
    ensures
        put_in_order(order, keys, n).len() == order.len() + 1,
        distinct_below(put_in_order(order, keys, n), n + 1),
        keys_ascend(put_in_order(order, keys, n), keys),
        forall|i: int|
            0 <= i < order.len() + 1 ==> #[trigger] put_in_order(order, keys, n)[i] == n || order.contains(
                put_in_order(order, keys, n)[i],
            ),
        forall|k: int|
            order.contains(k) || k == n ==> #[trigger] put_in_order(order, keys, n).contains(k),
    decreases order.len(),
{
    let out = put_in_order(order, keys, n);
    if order.len() == 0 {
        assert(out[0] == n);
    } else if keys[order.last()] > keys[n] {
        let rest = order.drop_last();
        let inner = put_in_order(rest, keys, n);
        assert(distinct_below(rest, n)) by {
            assert forall|i: int| 0 <= i < rest.len() implies 0 <= #[trigger] rest[i] < n by {
                assert(rest[i] == order[i]);
            }
            assert forall|i: int, j: int| 0 <= i < j < rest.len() implies #[trigger] rest[i]
                != #[trigger] rest[j] by {
                assert(rest[i] == order[i] && rest[j] == order[j]);
            }
        }
        assert(keys_ascend(rest, keys)) by {
            assert forall|i: int, j: int| 0 <= i < j < rest.len() implies {
                let a = #[trigger] rest[i];
                let b = #[trigger] rest[j];
                keys[a] < keys[b] || keys[a] == keys[b] && a < b
            } by {
                assert(rest[i] == order[i] && rest[j] == order[j]);
            }
        }
        lemma_put_in_order(rest, keys, n);
        let last = order.last();
        assert(last == order[order.len() - 1]);
        assert forall|i: int| 0 <= i < inner.len() implies {
            let a = #[trigger] inner[i];
            a != last && (keys[a] < keys[last] || keys[a] == keys[last] && a < last)
        } by {
            let a = inner[i];
            if a != n {
                let k = choose|k: int| 0 <= k < rest.len() && rest[k] == a;
                assert(order[k] == a);
            }
        }
        assert forall|i: int| 0 <= i < out.len() implies #[trigger] out[i] == n || order.contains(out[i]) by {
            if i < inner.len() {
                assert(out[i] == inner[i]);
                if inner[i] != n {
                    let k = choose|k: int| 0 <= k < rest.len() && rest[k] == inner[i];
                    assert(order[k] == inner[i]);
                }
            }
        }
        assert forall|i: int| 0 <= i < out.len() implies 0 <= #[trigger] out[i] < n + 1 by {
            if i < inner.len() {
                assert(out[i] == inner[i]);
            }
        }
        assert forall|i: int, j: int| 0 <= i < j < out.len() implies #[trigger] out[i] != #[trigger] out[j] by {
            assert(out[i] == inner[i]);
            if j < inner.len() {
                assert(out[j] == inner[j]);
            }
        }
        assert forall|i: int, j: int| 0 <= i < j < out.len() implies {
            let a = #[trigger] out[i];
            let b = #[trigger] out[j];
            keys[a] < keys[b] || keys[a] == keys[b] && a < b
        } by {
            assert(out[i] == inner[i]);
            if j < inner.len() {
                assert(out[j] == inner[j]);
            }
        }
        assert forall|k: int| order.contains(k) || k == n implies #[trigger] out.contains(k) by {
            if k == last {
                assert(out[out.len() - 1] == k);
            } else {
                if k != n {
                    let i = choose|i: int| 0 <= i < order.len() && order[i] == k;
                    assert(rest[i] == k);
                }
                assert(inner.contains(k));
                let i = choose|i: int| 0 <= i < inner.len() && inner[i] == k;
                assert(out[i] == k);
            }
        }
    } else {
        let last = order[order.len() - 1];
        assert forall|i: int, j: int| 0 <= i < j < out.len() implies {
            let a = #[trigger] out[i];
            let b = #[trigger] out[j];
            a != b && (keys[a] < keys[b] || keys[a] == keys[b] && a < b)
        } by {
            assert(out[i] == order[i]);
            if j < order.len() {
                assert(out[j] == order[j]);
            } else if i < order.len() - 1 {
                assert(keys[order[i]] <= keys[last]);
            }
        }
        assert forall|i: int| 0 <= i < out.len() implies #[trigger] out[i] == n || order.contains(out[i]) by {
            if i < order.len() {
                assert(out[i] == order[i]);
            }
        }
        assert forall|k: int| order.contains(k) || k == n implies #[trigger] out.contains(k) by {
            if k == n {
                assert(out[out.len() - 1] == n);
            } else {
                let i = choose|i: int| 0 <= i < order.len() && order[i] == k;
                assert(out[i] == k);
            }
        }
    }
}

proof fn lemma_order_of_first(keys: Seq<int>, n: nat)
    requires
        n <= keys.len(),
    ensures
        order_of_first(keys, n).len() == n,
        distinct_below(order_of_first(keys, n), n as int),
        keys_ascend(order_of_first(keys, n), keys),
        forall|k: int| 0 <= k < n ==> #[trigger] order_of_first(keys, n).contains(k),
    decreases n,
{
    if n > 0 {
        lemma_order_of_first(keys, (n - 1) as nat);
        lemma_put_in_order(order_of_first(keys, (n - 1) as nat), keys, n - 1);
    }
}

/// A stable order holds every index once, by ascending key, and by ascending index among equal keys.
pub proof fn stable_order_sorts(keys: Seq<int>)
    ensures
        stable_order(keys).len() == keys.len(),
        distinct_below(stable_order(keys), keys.len() as int),
        keys_ascend(stable_order(keys), keys),
        forall|k: int| 0 <= k < keys.len() ==> #[trigger] stable_order(keys).contains(k),
{
    lemma_order_of_first(keys, keys.len());
}

/// Whether the key at `a` belongs behind the key at `b`.
fn is_after(keys: &Vec<u128>, a: usize, b: usize, descending: bool) -> (r: bool)
    requires
        a < keys@.len(),
        b < keys@.len(),
    ensures
        r == (signed_keys(keys@, descending)[a as int] > signed_keys(keys@, descending)[b as int]),
{
    if descending {
        keys[a] < keys[b]
    } else {
        keys[a] > keys[b]
    }
}

/// The indexes of `keys` in their stable order.
pub fn order_by(keys: &Vec<u128>, descending: bool) -> (out: Vec<usize>)
    ensures
        ints(out@) == stable_order(signed_keys(keys@, descending)),
        out@.len() == keys@.len(),
        distinct_below(ints(out@), keys@.len() as int),
{
    let ghost ks = signed_keys(keys@, descending);
    let mut out: Vec<usize> = Vec::new();
    let mut i: usize = 0;
    assert(ints(out@) =~= order_of_first(ks, 0));
    while i < keys.len()
        invariant
            i <= keys@.len(),
            ks == signed_keys(keys@, descending),
            ints(out@) == order_of_first(ks, i as nat),
        decreases keys.len() - i,
    {
        let ghost before = ints(out@);
        proof {
            lemma_order_of_first(ks, i as nat);
        }
        let mut at: usize = out.len();
        assert(before.take(at as int) =~= before);
        assert(before.skip(at as int) =~= Seq::<int>::empty());
        assert(put_in_order(before, ks, i as int) + Seq::<int>::empty() =~= put_in_order(
            before,
            ks,
            i as int,
        ));
        assert forall|k: int| 0 <= k < out@.len() implies #[trigger] out@[k] < i by {
            assert(ints(out@)[k] == out@[k]);
        }
        while at > 0 && is_after(keys, out[at - 1], i, descending)
            invariant
                i < keys@.len(),
                at <= out@.len(),
                before == ints(out@),
                ks == signed_keys(keys@, descending),
                forall|k: int| 0 <= k < out@.len() ==> #[trigger] out@[k] < i,
                put_in_order(before.take(at as int), ks, i as int) + before.skip(at as int)
                    == put_in_order(before, ks, i as int),
            decreases at,
        {
            let ghost part = before.take(at as int);
            assert(part.last() == before[at - 1]);
            assert(part.drop_last() =~= before.take(at - 1));
            assert(before.skip(at - 1) =~= seq![before[at - 1]] + before.skip(at as int));
            assert(put_in_order(before.take(at - 1), ks, i as int) + before.skip(at - 1)
                =~= put_in_order(part, ks, i as int) + before.skip(at as int));
            at = at - 1;
        }
        out.insert(at, i);
        assert(ints(out@) =~= before.take(at as int).push(i as int) + before.skip(at as int));
        i = i + 1;
    }
    proof {
        lemma_order_of_first(ks, keys@.len());
    }
    out
}

// ---------------------------------------------------------------------------
// Sums
// ---------------------------------------------------------------------------

pub open spec fn sum(s: Seq<nat>) -> nat
    decreases s.len(),
{
    if s.len() == 0 {
        0
    } else {
        sum(s.drop_last()) + s.last()
    }
}

proof fn lemma_sum_update(s: Seq<nat>, i: int)
    requires
        0 <= i < s.len(),
    ensures
        sum(s) == s[i] + sum(s.update(i, 0)),
    decreases s.len(),
{
    let t = s.update(i, 0);
    if i == s.len() - 1 {
        assert(t.drop_last() =~= s.drop_last());
    } else {
        assert(t.drop_last() =~= s.drop_last().update(i, 0));
        lemma_sum_update(s.drop_last(), i);
    }
}

/// Some of the items add up to no more than all of them.
pub proof fn lemma_sum_arranged(s: Seq<nat>, order: Seq<int>)
    requires
        distinct_below(order, s.len() as int),
    ensures
        sum(arranged(s, order)) <= sum(s),
    decreases order.len(),
{
    if order.len() > 0 {
        let last = order[order.len() - 1];
        let rest = order.drop_last();
        let t = s.update(last, 0);
        assert forall|i: int| 0 <= i < rest.len() implies 0 <= #[trigger] rest[i] < t.len() by {
            assert(rest[i] == order[i]);
        }
        assert forall|i: int, j: int| 0 <= i < j < rest.len() implies #[trigger] rest[i] != #[trigger] rest[j] by {
            assert(rest[i] == order[i] && rest[j] == order[j]);
        }
        lemma_sum_arranged(t, rest);
        lemma_sum_update(s, last);
        assert(arranged(s, order).drop_last() =~= arranged(t, rest)) by {
            assert forall|i: int| 0 <= i < rest.len() implies s[order[i]] == #[trigger] t[rest[i]] by {
                assert(rest[i] == order[i]);
                assert(order[i] != order[order.len() - 1]);
            }
        }
    }
}

pub proof fn lemma_sum_below(a: Seq<nat>, b: Seq<nat>)
    requires
        a.len() == b.len(),
        forall|i: int| 0 <= i < a.len() ==> #[trigger] a[i] <= b[i],
    ensures
        sum(a) <= sum(b),
    decreases a.len(),
{
    if a.len() > 0 {
        assert(a[a.len() - 1] <= b[a.len() - 1]);
        assert forall|i: int| 0 <= i < a.drop_last().len() implies #[trigger] a.drop_last()[i]
            <= b.drop_last()[i] by {
            assert(a[i] <= b[i]);
        }
        lemma_sum_below(a.drop_last(), b.drop_last());
    }
}

pub proof fn lemma_sum_prefix(s: Seq<nat>, k: int)
    requires
        0 <= k <= s.len(),
    ensures
        sum(s.take(k)) <= sum(s),
    decreases s.len() - k,
{
    if k == s.len() {
        assert(s.take(k) =~= s);
    } else {
        lemma_sum_prefix(s, k + 1);
        assert(s.take(k + 1).drop_last() =~= s.take(k));
    }
}

} // verus!
