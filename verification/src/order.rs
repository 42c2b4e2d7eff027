//! Sorting by a number, the largest first.
use vstd::prelude::*;

verus! {

/// A list of places with one more, put before those that have a smaller key.
pub open spec fn put_in_order(order: Seq<int>, keys: Seq<u64>, k: int) -> Seq<int>
    decreases order.len(),
{
    if order.len() > 0 && keys[order.last()] < keys[k] {
        put_in_order(order.drop_last(), keys, k).push(order.last())
    } else {
        order.push(k)
    }
}

/// The places of the first `n` keys, those with the largest keys first, those
/// with equal keys in their own order.
pub open spec fn order_upto(keys: Seq<u64>, n: nat) -> Seq<int>
    decreases n,
{
    if n == 0 {
        Seq::empty()
    } else {
        put_in_order(order_upto(keys, (n - 1) as nat), keys, n - 1)
    }
}

/// The places of all keys, those with the largest keys first, those with equal
/// keys in their own order.
pub open spec fn order_of(keys: Seq<u64>) -> Seq<int> {
    order_upto(keys, keys.len())
}

/// Whether places are among the first `n`, none twice, and ordered by their
/// keys.
pub open spec fn ordered(order: Seq<int>, keys: Seq<u64>, n: int) -> bool {
    &&& order.len() == n
    &&& forall|i: int| 0 <= i < order.len() ==> 0 <= #[trigger] order[i] < n
    &&& forall|i: int, j: int|
        0 <= i < j < order.len() ==> keys[#[trigger] order[i]] > keys[#[trigger] order[j]] || (
        keys[order[i]] == keys[order[j]] && order[i] < order[j])
}

proof fn lemma_put_in_order(order: Seq<int>, keys: Seq<u64>, k: int)
    requires
        0 <= k < keys.len(),
        forall|i: int| 0 <= i < order.len() ==> 0 <= #[trigger] order[i] < k,
        forall|i: int, j: int|
            0 <= i < j < order.len() ==> keys[#[trigger] order[i]] > keys[#[trigger] order[j]] || (
            keys[order[i]] == keys[order[j]] && order[i] < order[j]),
    ensures
        put_in_order(order, keys, k).len() == order.len() + 1,
        forall|i: int|
            0 <= i < order.len() + 1 ==> 0 <= #[trigger] put_in_order(order, keys, k)[i] <= k,
        forall|i: int|
            0 <= i < order.len() + 1 ==> #[trigger] put_in_order(order, keys, k)[i] == k
                || order.contains(put_in_order(order, keys, k)[i]),
        forall|i: int, j: int|
            0 <= i < j < order.len() + 1 ==> keys[#[trigger] put_in_order(order, keys, k)[i]]
                > keys[#[trigger] put_in_order(order, keys, k)[j]] || (keys[put_in_order(
                order,
                keys,
                k,
            )[i]] == keys[put_in_order(order, keys, k)[j]] && put_in_order(order, keys, k)[i]
                < put_in_order(order, keys, k)[j]),
    decreases order.len(),
{
    let r = put_in_order(order, keys, k);
    if order.len() > 0 && keys[order.last()] < keys[k] {
        let rest = order.drop_last();
        lemma_put_in_order(rest, keys, k);
        let q = put_in_order(rest, keys, k);
        assert forall|i: int| 0 <= i < r.len() implies #[trigger] r[i] == k || order.contains(
            r[i],
        ) by {
            if i < q.len() {
                assert(r[i] == q[i]);
                if q[i] != k {
                    assert(rest.contains(q[i]));
                    let j = rest.index_of(q[i]);
                    assert(order[j] == q[i]);
                }
            } else {
                assert(order[order.len() - 1] == r[i]);
            }
        }
        assert forall|i: int, j: int| 0 <= i < j < r.len() implies keys[#[trigger] r[i]]
            > keys[#[trigger] r[j]] || (keys[r[i]] == keys[r[j]] && r[i] < r[j]) by {
            assert(r[i] == q[i]);
            if j < q.len() {
                assert(r[j] == q[j]);
            } else if q[i] != k {
                assert(rest.contains(q[i]));
                let m = rest.index_of(q[i]);
                assert(order[m] == q[i]);
            }
        }
    } else {
        assert forall|i: int| 0 <= i < r.len() implies #[trigger] r[i] == k || order.contains(
            r[i],
        ) by {
            if i < order.len() {
                assert(r[i] == order[i]);
            }
        }
        assert forall|i: int, j: int| 0 <= i < j < r.len() implies keys[#[trigger] r[i]]
            > keys[#[trigger] r[j]] || (keys[r[i]] == keys[r[j]] && r[i] < r[j]) by {
            assert(r[i] == order[i]);
            if j < order.len() {
                assert(r[j] == order[j]);
            } else if i < order.len() - 1 {
                let l = order.len() - 1;
                assert(keys[order[i]] > keys[order[l]] || (keys[order[i]] == keys[order[l]]
                    && order[i] < order[l]));
            }
        }
    }
}

/// The order is one: every place comes once, a larger key comes first, and
/// equal keys keep their order.
pub proof fn law_order_sorts(keys: Seq<u64>, n: nat)
    requires
        n <= keys.len(),
    ensures
        ordered(order_upto(keys, n), keys, n as int),
        order_upto(keys, n).no_duplicates(),
    decreases n,
{
    if n > 0 {
        law_order_sorts(keys, (n - 1) as nat);
        lemma_put_in_order(order_upto(keys, (n - 1) as nat), keys, n - 1);
    }
}

/// What a list of places says.
pub open spec fn places(v: Seq<usize>) -> Seq<int> {
    v.map_values(|i: usize| i as int)
}

/// The places of the keys, those with the largest keys first, those with equal
/// keys in their own order.
pub fn order_desc(keys: &Vec<u64>) -> (r: Vec<usize>)
    ensures
        places(r@) == order_of(keys@),
        r@.len() == keys@.len(),
        forall|i: int| 0 <= i < r@.len() ==> #[trigger] r@[i] < keys@.len(),
{
    let mut order: Vec<usize> = Vec::new();
    let mut n: usize = 0;
    assert(places(order@) =~= order_upto(keys@, 0));
    while n < keys.len()
        invariant
            n <= keys@.len(),
            order@.len() == n,
            places(order@) == order_upto(keys@, n as nat),
            forall|i: int| 0 <= i < order@.len() ==> #[trigger] order@[i] < n,
        decreases keys@.len() - n,
    {
        let ghost before = order@;
        let mut p: usize = n;
        assert(places(before).take(n as int) =~= places(before));
        assert(places(before.subrange(n as int, n as int)) =~= Seq::<int>::empty());
        assert(put_in_order(places(before), keys@, n as int) =~= put_in_order(
            places(before).take(n as int),
            keys@,
            n as int,
        ) + places(before.subrange(n as int, n as int)));
        while p > 0 && keys[order[p - 1]] < keys[n]
            invariant
                p <= n < keys@.len(),
                order@ == before,
                before.len() == n,
                forall|i: int| 0 <= i < before.len() ==> #[trigger] before[i] < n,
                put_in_order(places(before), keys@, n as int) == put_in_order(
                    places(before).take(p as int),
                    keys@,
                    n as int,
                ) + places(before.subrange(p as int, n as int)),
            decreases p,
        {
            proof {
                let o = places(before).take(p as int);
                assert(o.last() == before[p - 1]);
                assert(o.drop_last() =~= places(before).take(p - 1));
                assert(put_in_order(o, keys@, n as int) == put_in_order(
                    o.drop_last(),
                    keys@,
                    n as int,
                ).push(o.last()));
                assert(put_in_order(o, keys@, n as int) + places(
                    before.subrange(p as int, n as int),
                ) =~= put_in_order(o.drop_last(), keys@, n as int) + places(
                    before.subrange(p - 1, n as int),
                ));
            }
            p -= 1;
        }
        order.insert(p, n);
        proof {
            let o = places(before).take(p as int);
            if p > 0 {
                assert(o.last() == before[p - 1]);
            }
            assert(put_in_order(o, keys@, n as int) == o.push(n as int));
            assert(places(order@) =~= o.push(n as int) + places(
                before.subrange(p as int, n as int),
            ));
            assert forall|i: int| 0 <= i < order@.len() implies #[trigger] order@[i] < n + 1 by {
                if i < p {
                    assert(order@[i] == before[i]);
                } else if i > p {
                    assert(order@[i] == before[i - 1]);
                }
            }
        }
        n += 1;
    }
    order
}

} // verus!
