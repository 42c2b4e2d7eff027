//! What holds of the pool over many calls: that nothing in it depends on a
//! transaction that is gone, that taking one out takes out what depends on it
//! and nothing else, and that a block is filled by falling fees.
use crate::errors::Fault;
use crate::mempool;
use crate::mempool::{Admission, PoolView, MAX_POOL_TXS, MAX_POOL_TX_SIZE};
use crate::params::MAX_PACKAGE_DEPTH;
use crate::pool_maps;
use crate::store;
use crate::tx;
use vstd::prelude::*;

verus! {

// ---------------------------------------------------------------------------
// What depends on what
// ---------------------------------------------------------------------------

/// Whether a transaction that another depends on is in the pool, and lists the
/// other as one that depends on it.
pub open spec fn tied(p: PoolView, k: Seq<u8>, d: Seq<u8>) -> bool {
    &&& p.txs.dom().contains(d)
    &&& p.by_parent.dom().contains(d)
    &&& p.by_parent[d].contains(k)
}

/// Whether the transactions of the pool, but for some, are tied to those that
/// they depend on.
pub open spec fn tied_but(p: PoolView, some: Set<Seq<u8>>) -> bool {
    forall|k: Seq<u8>, i: int|
        p.txs.dom().contains(k) && !some.contains(k) && 0 <= i < p.txs[k].depends_on.len()
            ==> tied(p, k, #[trigger] p.txs[k].depends_on[i])
}

/// Whether every transaction that one of the pool depends on is in the pool,
/// and lists it.
pub open spec fn families_kept(p: PoolView) -> bool {
    tied_but(p, Set::empty())
}

/// Whether what is listed under a transaction, as far as it is in the pool,
/// depends on it.
pub open spec fn children_true(p: PoolView) -> bool {
    forall|d: Seq<u8>, k: Seq<u8>|
        p.by_parent.dom().contains(d) && #[trigger] p.by_parent[d].contains(k)
            && p.txs.dom().contains(k) ==> p.txs[k].depends_on.contains(d)
}

proof fn lemma_removed_tied(p: PoolView, id: Seq<u8>, fuel: nat, some: Set<Seq<u8>>)
    requires
        tied_but(p, some),
        mempool::removed(p, id, fuel).1,
    ensures
        tied_but(mempool::removed(p, id, fuel).0, some),
    decreases fuel, 0nat,
{
    if p.txs.dom().contains(id) {
        let e = p.txs[id];
        let q = mempool::dropped(p, id, e);
        let alone = PoolView { by_parent: q.by_parent.remove(id), ..q };
        let children = match pool_maps::at(q.by_parent, id) {
            Some(children) => children,
            None => Seq::empty(),
        };
        let more = Set::new(|k: Seq<u8>| some.contains(k) || children.contains(k));
        assert forall|k: Seq<u8>, i: int|
            alone.txs.dom().contains(k) && !more.contains(k) && 0 <= i
                < alone.txs[k].depends_on.len() implies tied(
            alone,
            k,
            #[trigger] alone.txs[k].depends_on[i],
        ) by {
            assert(tied(p, k, p.txs[k].depends_on[i]));
        }
        assert(tied_but(alone, more));
        let r = mempool::removed_all(alone, children, children.len(), (fuel - 1) as nat).0;
        if pool_maps::at(q.by_parent, id) is Some {
            lemma_all_removed_tied(alone, children, children.len(), (fuel - 1) as nat, more);
            mempool::lemma_removals_only_take(
                alone,
                children,
                children.len(),
                (fuel - 1) as nat,
            );
        }
        assert forall|k: Seq<u8>, i: int|
            r.txs.dom().contains(k) && !some.contains(k) && 0 <= i
                < r.txs[k].depends_on.len() implies tied(
            r,
            k,
            #[trigger] r.txs[k].depends_on[i],
        ) by {
            if children.contains(k) {
                let j = children.index_of(k);
                assert(!r.txs.dom().contains(children[j]));
            }
            assert(!more.contains(k));
        }
        assert(tied_but(r, some));
        let s = mempool::removed(p, id, fuel).0;
        assert(s.txs == r.txs && s.by_parent == r.by_parent);
        assert forall|k: Seq<u8>, i: int|
            s.txs.dom().contains(k) && !some.contains(k) && 0 <= i
                < s.txs[k].depends_on.len() implies tied(
            s,
            k,
            #[trigger] s.txs[k].depends_on[i],
        ) by {
            assert(tied(r, k, r.txs[k].depends_on[i]));
        }
    }
}

proof fn lemma_all_removed_tied(
    p: PoolView,
    ids: Seq<Seq<u8>>,
    n: nat,
    fuel: nat,
    some: Set<Seq<u8>>,
)
    requires
        tied_but(p, some),
        mempool::removed_all(p, ids, n, fuel).1,
    ensures
        tied_but(mempool::removed_all(p, ids, n, fuel).0, some),
    decreases fuel, n + 1,
{
    if n > 0 {
        lemma_all_removed_tied(p, ids, (n - 1) as nat, fuel, some);
        let q = mempool::removed_all(p, ids, (n - 1) as nat, fuel).0;
        lemma_removed_tied(q, ids[n - 1], fuel, some);
    }
}

proof fn lemma_evicted_tied(p: PoolView)
    requires
        families_kept(p),
        mempool::evicted(p).1,
    ensures
        families_kept(mempool::evicted(p).0),
{
    reveal(mempool::evicted);
    if p.heap.len() > 0 {
        let i = mempool::cheapest(p.heap, p.heap.len());
        let low = p.heap[i];
        let id = tx::txid_of(low.tx);
        let q = PoolView { heap: p.heap.remove(i), ..p };
        lemma_same_tied(p, q);
        if low.fee_per_byte < p.avg_fee / 2 {
            lemma_removed_tied(q, id, q.txs.dom().len(), Set::empty());
            let r = mempool::removal(q, id).0;
            match pool_maps::at(r.by_parent, id) {
                Some(children) => {
                    lemma_all_removed_tied(
                        r,
                        children,
                        children.len(),
                        r.txs.dom().len(),
                        Set::empty(),
                    );
                },
                None => {},
            }
        }
    }
}

proof fn lemma_same_tied(p: PoolView, q: PoolView)
    requires
        families_kept(p),
        q.txs == p.txs,
        q.by_parent == p.by_parent,
    ensures
        families_kept(q),
{
    assert forall|k: Seq<u8>, i: int|
        q.txs.dom().contains(k) && 0 <= i < q.txs[k].depends_on.len() implies tied(
        q,
        k,
        #[trigger] q.txs[k].depends_on[i],
    ) by {
        assert(tied(p, k, p.txs[k].depends_on[i]));
    }
}

proof fn lemma_shrunk_tied(p: PoolView, n: nat)
    requires
        families_kept(p),
        mempool::shrunk(p, n).1,
    ensures
        families_kept(mempool::shrunk(p, n).0),
    decreases n,
{
    if mempool::too_large(p) && n > 0 {
        lemma_evicted_tied(p);
        lemma_shrunk_tied(mempool::evicted(p).0, (n - 1) as nat);
    }
}

/// Whether the pool holds every transaction of a list.
pub open spec fn all_here(p: PoolView, ids: Seq<Seq<u8>>) -> bool {
    forall|i: int| 0 <= i < ids.len() ==> p.txs.dom().contains(#[trigger] ids[i])
}

proof fn lemma_ancestors_here(p: PoolView, stack: Seq<Seq<u8>>, deps: Seq<Seq<u8>>, depth: nat)
    requires
        families_kept(p),
        all_here(p, stack),
        all_here(p, deps),
    ensures
        mempool::ancestors(p, stack, deps, depth) matches Ok(a) ==> all_here(p, a.0),
    decreases MAX_PACKAGE_DEPTH - depth,
{
    if stack.len() > 0 && depth < MAX_PACKAGE_DEPTH {
        let parent = stack.last();
        if !deps.contains(parent) {
            let more = p.txs[parent].depends_on;
            let next = stack.drop_last() + more;
            assert(p.txs.dom().contains(parent));
            assert forall|i: int| 0 <= i < next.len() implies p.txs.dom().contains(
                #[trigger] next[i],
            ) by {
                if i < stack.len() - 1 {
                    assert(next[i] == stack[i]);
                } else {
                    let j = i - (stack.len() - 1);
                    assert(next[i] == more[j]);
                    assert(tied(p, parent, p.txs[parent].depends_on[j]));
                }
            }
            lemma_ancestors_here(p, next, deps.push(parent), depth + 1);
        }
    }
}

proof fn lemma_parents_here(p: PoolView, inputs: Seq<tx::InputView>, n: nat)
    ensures
        all_here(p, mempool::parents(p, inputs, n)),
    decreases n,
{
    if n > 0 {
        lemma_parents_here(p, inputs, (n - 1) as nat);
    }
}

proof fn lemma_brought_here(
    p: PoolView,
    db: store::Db,
    t: tx::TxView,
    deps: Seq<Seq<u8>>,
    n: nat,
)
    requires
        all_here(p, deps),
    ensures
        mempool::brought(p, db, t, deps, n) matches Ok(b) ==> all_here(p, b.1),
    decreases n,
{
    if n > 0 {
        lemma_brought_here(p, db, t, deps, (n - 1) as nat);
    }
}

proof fn lemma_entry_here(p: PoolView, db: store::Db, t: tx::TxView, now_ms: u128)
    requires
        families_kept(p),
        mempool::entry_for(p, db, t, now_ms) is Ok,
    ensures
        all_here(p, mempool::entry_for(p, db, t, now_ms)->Ok_0.depends_on),
{
    reveal(mempool::entry_for);
    let stack = mempool::parents(p, t.inputs, t.inputs.len());
    lemma_parents_here(p, t.inputs, t.inputs.len());
    lemma_ancestors_here(p, stack, Seq::empty(), 0);
    match mempool::ancestors(p, stack, Seq::empty(), 0) {
        Ok((deps, _)) => {
            lemma_brought_here(p, db, t, deps, t.inputs.len());
        },
        Err(_) => {},
    }
}

proof fn lemma_with_child(
    m: Map<Seq<u8>, Seq<Seq<u8>>>,
    id: Seq<u8>,
    deps: Seq<Seq<u8>>,
    n: nat,
)
    requires
        n <= deps.len(),
    ensures
        ({
            let w = mempool::with_child(m, id, deps, n);
            &&& forall|j: int|
                0 <= j < n ==> w.dom().contains(#[trigger] deps[j]) && w[deps[j]].contains(id)
            &&& forall|d: Seq<u8>, k: Seq<u8>|
                m.dom().contains(d) && #[trigger] m[d].contains(k) ==> w.dom().contains(d)
                    && w[d].contains(k)
            &&& forall|d: Seq<u8>, k: Seq<u8>|
                w.dom().contains(d) && #[trigger] w[d].contains(k) ==> (m.dom().contains(d)
                    && m[d].contains(k)) || (k == id && deps.contains(d))
        }),
    decreases n,
{
    if n > 0 {
        lemma_with_child(m, id, deps, (n - 1) as nat);
        let v = mempool::with_child(m, id, deps, (n - 1) as nat);
        let w = mempool::with_child(m, id, deps, n);
        let last = deps[n - 1];
        let list = mempool::appended(pool_maps::at(v, last), id);
        assert(list[list.len() - 1] == id);
        assert forall|d: Seq<u8>, k: Seq<u8>|
            m.dom().contains(d) && #[trigger] m[d].contains(k) implies w.dom().contains(d)
            && w[d].contains(k) by {
            assert(v[d].contains(k));
            if d == last {
                let i = v[d].index_of(k);
                assert(list[i] == k);
            }
        }
        assert forall|d: Seq<u8>, k: Seq<u8>|
            w.dom().contains(d) && #[trigger] w[d].contains(k) implies (m.dom().contains(d)
            && m[d].contains(k)) || (k == id && deps.contains(d)) by {
            if d == last && k == id {
                assert(deps.contains(d));
            } else if d != last {
                assert(v[d].contains(k));
            } else {
                let i = list.index_of(k);
                assert(v.dom().contains(last));
                assert(v[d][i] == k);
                assert(v[d].contains(k));
            }
        }
        assert forall|j: int| 0 <= j < n implies w.dom().contains(#[trigger] deps[j])
            && w[deps[j]].contains(id) by {
            if j < n - 1 && deps[j] == last {
                assert(list.contains(id));
            }
        }
    }
}

proof fn lemma_enrolled_tied(p: PoolView, id: Seq<u8>, e: pool_maps::EntryView)
    requires
        families_kept(p),
        !p.txs.dom().contains(id),
        all_here(p, e.depends_on),
    ensures
        families_kept(mempool::enrolled(p, id, e)),
{
    reveal(mempool::enrolled);
    let q = mempool::enrolled(p, id, e);
    lemma_with_child(p.by_parent, id, e.depends_on, e.depends_on.len());
    assert forall|k: Seq<u8>, i: int|
        q.txs.dom().contains(k) && 0 <= i < q.txs[k].depends_on.len() implies tied(
        q,
        k,
        #[trigger] q.txs[k].depends_on[i],
    ) by {
        let d = q.txs[k].depends_on[i];
        if k == id {
            assert(d == e.depends_on[i]);
        } else {
            assert(tied(p, k, p.txs[k].depends_on[i]));
            assert(q.by_parent[d].contains(k));
        }
    }
}

proof fn lemma_offered_tied(
    p: PoolView,
    db: store::Db,
    t: tx::TxView,
    now_ms: u128,
    r: Result<Admission, Fault>,
    q: PoolView,
)
    requires
        families_kept(p),
        mempool::offered(p, db, t, now_ms, r, q),
        r != Ok::<_, Fault>(Admission::Stuck),
    ensures
        families_kept(q),
{
    let id = tx::txid_of(t);
    if !p.txs.dom().contains(id) && mempool::entry_for(p, db, t, now_ms) is Ok {
        let e = mempool::entry_for(p, db, t, now_ms)->Ok_0;
        lemma_entry_here(p, db, t, now_ms);
        lemma_enrolled_tied(p, id, e);
        let x = mempool::enrolled(p, id, e);
        let a = mempool::avg_with(x.avg_fee, x.txs.dom().len(), e.fee_per_byte)->0;
        let y = PoolView { avg_fee: a, ..x };
        lemma_same_tied(x, y);
        lemma_shrunk_tied(y, y.heap.len());
        let s = mempool::taken_in(p, id, e).0;
        let ids = choose|ids: Seq<Seq<u8>>|
            mempool::lists_stranded(s, ids) && q == (#[trigger] mempool::removals(s, ids)).0
                && mempool::removals(s, ids).1;
        lemma_all_removed_tied(s, ids, ids.len(), s.txs.dom().len(), Set::empty());
    }
}

/// What the transactions of the pool depend on is in the pool: that holds of an
/// empty pool, and where it holds it goes on holding, whatever is offered to
/// the pool, taken out of it or put out of it, and whatever grows too old,
/// unless the pool gets stuck.
pub proof fn law_families_are_kept(
    p: PoolView,
    db: store::Db,
    t: tx::TxView,
    now_ms: u128,
    r: Result<Admission, Fault>,
    q: PoolView,
    ids: Seq<Seq<u8>>,
    expiration_ms: u128,
    max_size: usize,
)
    requires
        families_kept(p),
        mempool::offered(p, db, t, now_ms, r, q),
    ensures
        families_kept(mempool::empty_pool(max_size)),
        r != Ok::<_, Fault>(Admission::Stuck) ==> families_kept(q),
        mempool::removals(p, ids).1 ==> families_kept(mempool::removals(p, ids).0),
        mempool::evicted(p).1 ==> families_kept(mempool::evicted(p).0),
        mempool::cleaned(p, now_ms, expiration_ms).1 ==> families_kept(
            mempool::cleaned(p, now_ms, expiration_ms).0,
        ),
{
    if r != Ok::<_, Fault>(Admission::Stuck) {
        lemma_offered_tied(p, db, t, now_ms, r, q);
    }
    if mempool::removals(p, ids).1 {
        lemma_all_removed_tied(p, ids, ids.len(), p.txs.dom().len(), Set::empty());
    }
    if mempool::evicted(p).1 {
        lemma_evicted_tied(p);
    }
    let (c, ok) = mempool::cleaned(p, now_ms, expiration_ms);
    if ok {
        let old = p.ttl.map_values(|a: (u128, Seq<u8>)| a.1);
        if p.ttl.len() > 0 && mempool::too_old(
            mempool::latest(p.ttl, p.ttl.len()),
            now_ms,
            expiration_ms,
        ) {
            lemma_all_removed_tied(p, old, old.len(), p.txs.dom().len(), Set::empty());
            lemma_same_tied(mempool::removals(p, old).0, c);
        } else {
            lemma_same_tied(p, c);
        }
    }
}

/// After a transaction was added, every transaction that one of the pool
/// depends on is in the pool.
pub proof fn law_no_dependency_is_missing(
    p: PoolView,
    db: store::Db,
    t: tx::TxView,
    now_ms: u128,
    q: PoolView,
)
    requires
        families_kept(p),
        mempool::offered(p, db, t, now_ms, Ok::<_, Fault>(Admission::Added), q),
    ensures
        forall|k: Seq<u8>| #[trigger]
            q.txs.dom().contains(k) ==> all_here(q, q.txs[k].depends_on),
        forall|k: Seq<u8>| #[trigger]
            q.txs.dom().contains(k) ==> !mempool::misses(q, q.txs[k]),
{
    lemma_offered_tied(p, db, t, now_ms, Ok::<_, Fault>(Admission::Added), q);
    assert forall|k: Seq<u8>| #[trigger] q.txs.dom().contains(k) implies all_here(
        q,
        q.txs[k].depends_on,
    ) by {
        assert forall|i: int| 0 <= i < q.txs[k].depends_on.len() implies q.txs.dom().contains(
            #[trigger] q.txs[k].depends_on[i],
        ) by {
            assert(tied(q, k, q.txs[k].depends_on[i]));
        }
    }
}

// ---------------------------------------------------------------------------
// What goes with a transaction
// ---------------------------------------------------------------------------

/// Whether a list leads from one transaction to another, each after the first
/// in the pool and dependent on the one before.
pub open spec fn leads(p: PoolView, path: Seq<Seq<u8>>, from: Seq<u8>, to: Seq<u8>) -> bool {
    &&& path.len() > 0
    &&& path[0] == from
    &&& path.last() == to
    &&& forall|i: int|
        1 <= i < path.len() ==> p.txs.dom().contains(#[trigger] path[i])
            && p.txs[path[i]].depends_on.contains(path[i - 1])
}

/// Whether a transaction is another one, or depends on it, or on one that does.
pub open spec fn descends(p: PoolView, to: Seq<u8>, from: Seq<u8>) -> bool {
    exists|path: Seq<Seq<u8>>| #[trigger] leads(p, path, from, to)
}

/// Whether the lists of dependents of a pool are among those of another.
spec fn fewer_lists(p: PoolView, q: PoolView) -> bool {
    forall|d: Seq<u8>| #[trigger]
        q.by_parent.dom().contains(d) ==> p.by_parent.dom().contains(d) && q.by_parent[d]
            == p.by_parent[d]
}

proof fn lemma_removed_lists(p: PoolView, id: Seq<u8>, fuel: nat)
    ensures
        fewer_lists(p, mempool::removed(p, id, fuel).0),
    decreases fuel, 0nat,
{
    if p.txs.dom().contains(id) && fuel > 0 {
        let q = mempool::dropped(p, id, p.txs[id]);
        let alone = PoolView { by_parent: q.by_parent.remove(id), ..q };
        match pool_maps::at(q.by_parent, id) {
            Some(children) => {
                lemma_all_removed_lists(alone, children, children.len(), (fuel - 1) as nat);
            },
            None => {},
        }
    }
}

proof fn lemma_all_removed_lists(p: PoolView, ids: Seq<Seq<u8>>, n: nat, fuel: nat)
    ensures
        fewer_lists(p, mempool::removed_all(p, ids, n, fuel).0),
    decreases fuel, n + 1,
{
    if n > 0 {
        lemma_all_removed_lists(p, ids, (n - 1) as nat, fuel);
        let (q, ok) = mempool::removed_all(p, ids, (n - 1) as nat, fuel);
        if ok {
            lemma_removed_lists(q, ids[n - 1], fuel);
        }
    }
}

proof fn lemma_fewer_true(p: PoolView, q: PoolView)
    requires
        children_true(p),
        fewer_lists(p, q),
        mempool::only_less(p, q),
    ensures
        children_true(q),
{
    assert forall|d: Seq<u8>, k: Seq<u8>|
        q.by_parent.dom().contains(d) && #[trigger] q.by_parent[d].contains(k)
            && q.txs.dom().contains(k) implies q.txs[k].depends_on.contains(d) by {
        assert(p.by_parent[d].contains(k));
    }
}

proof fn lemma_leads_more(
    p: PoolView,
    q: PoolView,
    path: Seq<Seq<u8>>,
    from: Seq<u8>,
    to: Seq<u8>,
)
    requires
        mempool::only_less(p, q),
        leads(q, path, from, to),
    ensures
        leads(p, path, from, to),
{
}

proof fn lemma_gone_descends(p: PoolView, id: Seq<u8>, fuel: nat, y: Seq<u8>)
    requires
        children_true(p),
        p.txs.dom().contains(y),
        !mempool::removed(p, id, fuel).0.txs.dom().contains(y),
    ensures
        descends(p, y, id),
    decreases fuel, 0nat,
{
    let q = mempool::dropped(p, id, p.txs[id]);
    let alone = PoolView { by_parent: q.by_parent.remove(id), ..q };
    if y == id {
        assert(leads(p, seq![id], id, id));
    } else {
        let children = q.by_parent[id];
        assert(mempool::only_less(p, alone));
        lemma_fewer_true(p, alone);
        let j = lemma_all_gone_descend(
            alone,
            children,
            children.len(),
            (fuel - 1) as nat,
            y,
        );
        let c = children[j];
        assert(p.by_parent[id].contains(c));
        let path = choose|path: Seq<Seq<u8>>| #[trigger] leads(alone, path, c, y);
        lemma_leads_more(p, alone, path, c, y);
        let whole = seq![id] + path;
        assert forall|i: int| 1 <= i < whole.len() implies p.txs.dom().contains(
            #[trigger] whole[i],
        ) && p.txs[whole[i]].depends_on.contains(whole[i - 1]) by {
            assert(whole[i] == path[i - 1]);
            if i > 1 {
                assert(whole[i - 1] == path[i - 2]);
            }
        }
        assert(whole.last() == path.last());
        assert(leads(p, whole, id, y));
    }
}

proof fn lemma_all_gone_descend(
    p: PoolView,
    ids: Seq<Seq<u8>>,
    n: nat,
    fuel: nat,
    y: Seq<u8>,
) -> (j: int)
    requires
        children_true(p),
        n <= ids.len(),
        p.txs.dom().contains(y),
        !mempool::removed_all(p, ids, n, fuel).0.txs.dom().contains(y),
    ensures
        0 <= j < n,
        p.txs.dom().contains(ids[j]),
        descends(p, y, ids[j]),
    decreases fuel, n + 1,
{
    let (q, ok) = mempool::removed_all(p, ids, (n - 1) as nat, fuel);
    if !q.txs.dom().contains(y) {
        lemma_all_gone_descend(p, ids, (n - 1) as nat, fuel, y)
    } else {
        let last = mempool::removed(q, ids[n - 1], fuel);
        assert(mempool::removed_all(p, ids, n, fuel) == last);
        if !q.txs.dom().contains(ids[n - 1]) {
            assert(last == (q, true));
        }
        mempool::lemma_removals_only_take(p, ids, (n - 1) as nat, fuel);
        lemma_all_removed_lists(p, ids, (n - 1) as nat, fuel);
        lemma_fewer_true(p, q);
        lemma_gone_descends(q, ids[n - 1], fuel, y);
        let path = choose|path: Seq<Seq<u8>>| #[trigger] leads(q, path, ids[n - 1], y);
        lemma_leads_more(p, q, path, ids[n - 1], y);
        n - 1
    }
}

proof fn lemma_path_is_gone(
    p: PoolView,
    q: PoolView,
    path: Seq<Seq<u8>>,
    from: Seq<u8>,
    to: Seq<u8>,
    n: int,
)
    requires
        mempool::only_less(p, q),
        families_kept(q),
        !q.txs.dom().contains(from),
        leads(p, path, from, to),
        0 <= n < path.len(),
    ensures
        !q.txs.dom().contains(path[n]),
    decreases n,
{
    if n > 0 {
        lemma_path_is_gone(p, q, path, from, to, n - 1);
        if q.txs.dom().contains(path[n]) {
            let deps = q.txs[path[n]].depends_on;
            let i = deps.index_of(path[n - 1]);
            assert(tied(q, path[n], q.txs[path[n]].depends_on[i]));
        }
    }
}

/// Taking a transaction out of the pool takes out what depends on it, and what
/// depends on that, and nothing else.
pub proof fn law_removal_takes_descendants(p: PoolView, id: Seq<u8>, y: Seq<u8>)
    requires
        families_kept(p),
        children_true(p),
        p.txs.dom().contains(y),
        mempool::removal(p, id).1,
    ensures
        mempool::removal(p, id).0.txs.dom().contains(y) == !descends(p, y, id),
        mempool::only_less(p, mempool::removal(p, id).0),
{
    let fuel = p.txs.dom().len();
    let q = mempool::removal(p, id).0;
    mempool::law_removal_only_takes(p, id, fuel);
    lemma_removed_tied(p, id, fuel, Set::empty());
    if !q.txs.dom().contains(y) {
        lemma_gone_descends(p, id, fuel, y);
    }
    if descends(p, y, id) {
        let path = choose|path: Seq<Seq<u8>>| #[trigger] leads(p, path, id, y);
        lemma_path_is_gone(p, q, path, id, y, path.len() - 1);
    }
}

proof fn lemma_same_true(p: PoolView, q: PoolView)
    requires
        children_true(p),
        q.txs == p.txs,
        q.by_parent == p.by_parent,
    ensures
        children_true(q),
{
    assert forall|d: Seq<u8>, k: Seq<u8>|
        q.by_parent.dom().contains(d) && #[trigger] q.by_parent[d].contains(k)
            && q.txs.dom().contains(k) implies q.txs[k].depends_on.contains(d) by {
        assert(p.by_parent[d].contains(k));
    }
}

proof fn lemma_all_removed_true(p: PoolView, ids: Seq<Seq<u8>>)
    requires
        children_true(p),
    ensures
        children_true(mempool::removals(p, ids).0),
{
    let fuel = p.txs.dom().len();
    mempool::lemma_removals_only_take(p, ids, ids.len(), fuel);
    lemma_all_removed_lists(p, ids, ids.len(), fuel);
    lemma_fewer_true(p, mempool::removals(p, ids).0);
}

proof fn lemma_evicted_true(p: PoolView)
    requires
        children_true(p),
    ensures
        children_true(mempool::evicted(p).0),
{
    reveal(mempool::evicted);
    if p.heap.len() > 0 {
        let i = mempool::cheapest(p.heap, p.heap.len());
        let id = tx::txid_of(p.heap[i].tx);
        let q = PoolView { heap: p.heap.remove(i), ..p };
        lemma_same_true(p, q);
        mempool::law_removal_only_takes(q, id, q.txs.dom().len());
        lemma_removed_lists(q, id, q.txs.dom().len());
        let r = mempool::removal(q, id).0;
        lemma_fewer_true(q, r);
        match pool_maps::at(r.by_parent, id) {
            Some(children) => {
                lemma_all_removed_true(r, children);
            },
            None => {},
        }
    }
}

proof fn lemma_shrunk_true(p: PoolView, n: nat)
    requires
        children_true(p),
    ensures
        children_true(mempool::shrunk(p, n).0),
    decreases n,
{
    if mempool::too_large(p) && n > 0 {
        lemma_evicted_true(p);
        if mempool::evicted(p).1 {
            lemma_shrunk_true(mempool::evicted(p).0, (n - 1) as nat);
        }
    }
}

proof fn lemma_enrolled_true(p: PoolView, id: Seq<u8>, e: pool_maps::EntryView)
    requires
        children_true(p),
        listed_nowhere(p, id),
    ensures
        children_true(mempool::enrolled(p, id, e)),
{
    reveal(mempool::enrolled);
    let q = mempool::enrolled(p, id, e);
    lemma_with_child(p.by_parent, id, e.depends_on, e.depends_on.len());
    assert forall|d: Seq<u8>, k: Seq<u8>|
        q.by_parent.dom().contains(d) && #[trigger] q.by_parent[d].contains(k)
            && q.txs.dom().contains(k) implies q.txs[k].depends_on.contains(d) by {
        if p.by_parent.dom().contains(d) && p.by_parent[d].contains(k) {
            assert(k != id);
        }
    }
}

/// Whether a transaction is listed under no other.
pub open spec fn listed_nowhere(p: PoolView, id: Seq<u8>) -> bool {
    forall|d: Seq<u8>| #[trigger]
        p.by_parent.dom().contains(d) ==> !p.by_parent[d].contains(id)
}

/// What is listed under a transaction depends on it: that holds of an empty
/// pool, and where it holds it goes on holding, whatever is taken out of the
/// pool or put out of it, whatever grows too old, and when a transaction is
/// offered that is listed nowhere.
pub proof fn law_children_stay_true(
    p: PoolView,
    db: store::Db,
    t: tx::TxView,
    now_ms: u128,
    r: Result<Admission, Fault>,
    q: PoolView,
    ids: Seq<Seq<u8>>,
    expiration_ms: u128,
    max_size: usize,
)
    requires
        children_true(p),
        listed_nowhere(p, tx::txid_of(t)),
        mempool::offered(p, db, t, now_ms, r, q),
    ensures
        children_true(mempool::empty_pool(max_size)),
        children_true(q),
        children_true(mempool::removals(p, ids).0),
        children_true(mempool::evicted(p).0),
        children_true(mempool::cleaned(p, now_ms, expiration_ms).0),
{
    lemma_all_removed_true(p, ids);
    lemma_evicted_true(p);
    let id = tx::txid_of(t);
    if !p.txs.dom().contains(id) && mempool::entry_for(p, db, t, now_ms) is Ok {
        let e = mempool::entry_for(p, db, t, now_ms)->Ok_0;
        let x = mempool::enrolled(p, id, e);
        lemma_enrolled_true(p, id, e);
        match mempool::avg_with(x.avg_fee, x.txs.dom().len(), e.fee_per_byte) {
            None => {},
            Some(a) => {
                let y = PoolView { avg_fee: a, ..x };
                lemma_same_true(x, y);
                lemma_shrunk_true(y, y.heap.len());
            },
        }
        let (s, ok) = mempool::taken_in(p, id, e);
        if ok {
            let gone = choose|gone: Seq<Seq<u8>>|
                mempool::lists_stranded(s, gone) && q == (#[trigger] mempool::removals(s, gone)).0;
            lemma_all_removed_true(s, gone);
        }
    }
    let old = p.ttl.map_values(|a: (u128, Seq<u8>)| a.1);
    lemma_all_removed_true(p, old);
    let c = mempool::cleaned(p, now_ms, expiration_ms).0;
    if p.ttl.len() > 0 && mempool::too_old(
        mempool::latest(p.ttl, p.ttl.len()),
        now_ms,
        expiration_ms,
    ) {
        lemma_same_true(mempool::removals(p, old).0, c);
    } else {
        lemma_same_true(p, c);
    }
}

// ---------------------------------------------------------------------------
// Fees
// ---------------------------------------------------------------------------

/// Whether the lists by fee hold nothing twice, and, but for some, only
/// transactions of the pool that pay that fee for each byte.
pub open spec fn filed_but(p: PoolView, some: Set<Seq<u8>>) -> bool {
    &&& forall|f: u128| #[trigger]
        p.fee_index.dom().contains(f) ==> p.fee_index[f].no_duplicates()
    &&& forall|f: u128, k: Seq<u8>|
        p.fee_index.dom().contains(f) && #[trigger] p.fee_index[f].contains(k) && !some.contains(k)
            ==> p.txs.dom().contains(k) && p.txs[k].fee_per_byte as u128 == f
}

/// Whether each list by fee holds transactions of the pool that pay that fee
/// for each byte, each once.
pub open spec fn fees_true(p: PoolView) -> bool {
    filed_but(p, Set::empty())
}

/// Whether the lists by fee of a pool hold no more than those of another.
spec fn filed_less(p: PoolView, q: PoolView) -> bool {
    forall|f: u128, k: Seq<u8>|
        q.fee_index.dom().contains(f) && #[trigger] q.fee_index[f].contains(k)
            ==> p.fee_index.dom().contains(f) && p.fee_index[f].contains(k)
}

proof fn lemma_without(s: Seq<Seq<u8>>, id: Seq<u8>)
    ensures
        forall|x: Seq<u8>| #[trigger] mempool::without(s, id).contains(x) ==> s.contains(x),
        s.no_duplicates() ==> mempool::without(s, id).no_duplicates() && !mempool::without(
            s,
            id,
        ).contains(id),
    decreases s.len(),
{
    let w = mempool::without(s, id);
    if s.len() > 0 {
        let rest = s.skip(1);
        if s[0] == id {
            assert forall|x: Seq<u8>| #[trigger] w.contains(x) implies s.contains(x) by {
                let i = w.index_of(x);
                assert(s[i + 1] == x);
            }
            if s.no_duplicates() && w.contains(id) {
                let i = w.index_of(id);
                assert(s[i + 1] == id);
            }
        } else {
            lemma_without(rest, id);
            let v = mempool::without(rest, id);
            assert forall|x: Seq<u8>| #[trigger] w.contains(x) implies s.contains(x) by {
                let i = w.index_of(x);
                if i > 0 {
                    assert(v[i - 1] == x);
                    assert(v.contains(x));
                    let j = rest.index_of(x);
                    assert(s[j + 1] == x);
                }
            }
            if s.no_duplicates() {
                assert(rest.no_duplicates()) by {
                    assert forall|i: int, j: int|
                        0 <= i < rest.len() && 0 <= j < rest.len() && i != j implies rest[i]
                        != rest[j] by {
                        assert(s[i + 1] != s[j + 1]);
                    }
                }
                if v.contains(s[0]) {
                    let j = rest.index_of(s[0]);
                    assert(s[j + 1] == s[0]);
                }
                assert forall|i: int, j: int|
                    0 <= i < w.len() && 0 <= j < w.len() && i != j implies w[i] != w[j] by {
                    if i == 0 {
                        assert(v.contains(v[j - 1]));
                    } else if j == 0 {
                        assert(v.contains(v[i - 1]));
                    } else {
                        assert(v[i - 1] != v[j - 1]);
                    }
                }
                if w.contains(id) {
                    let i = w.index_of(id);
                    assert(v[i - 1] == id);
                    assert(v.contains(id));
                }
            }
        }
    }
}

proof fn lemma_ordered(s: Seq<Seq<u8>>, id: Seq<u8>)
    requires
        s.no_duplicates(),
        !s.contains(id),
    ensures
        mempool::ordered_with(s, id).no_duplicates(),
        forall|x: Seq<u8>| #[trigger]
            mempool::ordered_with(s, id).contains(x) ==> s.contains(x) || x == id,
    decreases s.len(),
{
    let w = mempool::ordered_with(s, id);
    if s.len() > 0 {
        assert(s.contains(s[0]));
        if mempool::id_before(id, s[0]) {
            assert(w =~= seq![id] + s);
            assert forall|i: int, j: int|
                0 <= i < w.len() && 0 <= j < w.len() && i != j implies w[i] != w[j] by {
                if i == 0 {
                    assert(s.contains(s[j - 1]));
                } else if j == 0 {
                    assert(s.contains(s[i - 1]));
                } else {
                    assert(s[i - 1] != s[j - 1]);
                }
            }
            assert forall|x: Seq<u8>| #[trigger] w.contains(x) implies s.contains(x) || x
                == id by {
                let i = w.index_of(x);
                if i > 0 {
                    assert(s[i - 1] == x);
                }
            }
        } else {
            let rest = s.skip(1);
            assert forall|i: int, j: int|
                0 <= i < rest.len() && 0 <= j < rest.len() && i != j implies rest[i]
                != rest[j] by {
                assert(s[i + 1] != s[j + 1]);
            }
            if rest.contains(id) {
                let i = rest.index_of(id);
                assert(s[i + 1] == id);
            }
            lemma_ordered(rest, id);
            let v = mempool::ordered_with(rest, id);
            if v.contains(s[0]) {
                let j = rest.index_of(s[0]);
                assert(s[j + 1] == s[0]);
            }
            assert forall|i: int, j: int|
                0 <= i < w.len() && 0 <= j < w.len() && i != j implies w[i] != w[j] by {
                if i == 0 {
                    assert(v.contains(v[j - 1]));
                } else if j == 0 {
                    assert(v.contains(v[i - 1]));
                } else {
                    assert(v[i - 1] != v[j - 1]);
                }
            }
            assert forall|x: Seq<u8>| #[trigger] w.contains(x) implies s.contains(x) || x
                == id by {
                let i = w.index_of(x);
                if i > 0 {
                    assert(v[i - 1] == x);
                    assert(v.contains(x));
                    if x != id {
                        let j = rest.index_of(x);
                        assert(s[j + 1] == x);
                    }
                }
            }
        }
    } else {
        assert(w =~= seq![id]);
    }
}

proof fn lemma_removed_filed_less(p: PoolView, id: Seq<u8>, fuel: nat)
    ensures
        filed_less(p, mempool::removed(p, id, fuel).0),
    decreases fuel, 0nat,
{
    if p.txs.dom().contains(id) && fuel > 0 {
        let e = p.txs[id];
        let q = mempool::dropped(p, id, e);
        let alone = PoolView { by_parent: q.by_parent.remove(id), ..q };
        let r = match pool_maps::at(q.by_parent, id) {
            Some(children) => {
                lemma_all_removed_filed_less(alone, children, children.len(), (fuel - 1) as nat);
                mempool::removed_all(alone, children, children.len(), (fuel - 1) as nat).0
            },
            None => alone,
        };
        let f = e.fee_per_byte as u128;
        if r.fee_index.dom().contains(f) {
            lemma_without(r.fee_index[f], id);
        }
        assert(filed_less(r, mempool::unindexed(r, id, e)));
    }
}

proof fn lemma_all_removed_filed_less(p: PoolView, ids: Seq<Seq<u8>>, n: nat, fuel: nat)
    ensures
        filed_less(p, mempool::removed_all(p, ids, n, fuel).0),
    decreases fuel, n + 1,
{
    if n > 0 {
        lemma_all_removed_filed_less(p, ids, (n - 1) as nat, fuel);
        let (q, ok) = mempool::removed_all(p, ids, (n - 1) as nat, fuel);
        if ok {
            lemma_removed_filed_less(q, ids[n - 1], fuel);
        }
    }
}

proof fn lemma_removed_filed(p: PoolView, id: Seq<u8>, fuel: nat, some: Set<Seq<u8>>)
    requires
        filed_but(p, some),
        mempool::removed(p, id, fuel).1,
    ensures
        filed_but(mempool::removed(p, id, fuel).0, some),
    decreases fuel, 0nat,
{
    if p.txs.dom().contains(id) {
        let e = p.txs[id];
        let f0 = e.fee_per_byte as u128;
        let q = mempool::dropped(p, id, e);
        let alone = PoolView { by_parent: q.by_parent.remove(id), ..q };
        let more = some.insert(id);
        assert(filed_but(alone, more));
        let r = match pool_maps::at(q.by_parent, id) {
            Some(children) => {
                lemma_all_removed_filed(alone, children, children.len(), (fuel - 1) as nat, more);
                lemma_all_removed_filed_less(alone, children, children.len(), (fuel - 1) as nat);
                mempool::removed_all(alone, children, children.len(), (fuel - 1) as nat).0
            },
            None => alone,
        };
        assert(filed_but(r, more));
        assert(filed_less(p, r));
        let s = mempool::unindexed(r, id, e);
        if r.fee_index.dom().contains(f0) {
            lemma_without(r.fee_index[f0], id);
        }
        assert forall|f: u128, k: Seq<u8>|
            s.fee_index.dom().contains(f) && #[trigger] s.fee_index[f].contains(k)
                && !some.contains(k) implies s.txs.dom().contains(k)
            && s.txs[k].fee_per_byte as u128 == f by {
            assert(r.fee_index[f].contains(k));
            if k == id {
                assert(p.fee_index[f].contains(k));
                assert(f == f0);
            }
        }
        assert(filed_but(s, some));
        let t = mempool::removed(p, id, fuel).0;
        assert(t.txs == s.txs && t.fee_index == s.fee_index);
        lemma_same_filed(s, t, some);
    }
}

proof fn lemma_all_removed_filed(
    p: PoolView,
    ids: Seq<Seq<u8>>,
    n: nat,
    fuel: nat,
    some: Set<Seq<u8>>,
)
    requires
        filed_but(p, some),
        mempool::removed_all(p, ids, n, fuel).1,
    ensures
        filed_but(mempool::removed_all(p, ids, n, fuel).0, some),
    decreases fuel, n + 1,
{
    if n > 0 {
        lemma_all_removed_filed(p, ids, (n - 1) as nat, fuel, some);
        let q = mempool::removed_all(p, ids, (n - 1) as nat, fuel).0;
        lemma_removed_filed(q, ids[n - 1], fuel, some);
    }
}

proof fn lemma_same_filed(p: PoolView, q: PoolView, some: Set<Seq<u8>>)
    requires
        filed_but(p, some),
        q.txs == p.txs,
        q.fee_index == p.fee_index,
    ensures
        filed_but(q, some),
{
    assert forall|f: u128, k: Seq<u8>|
        q.fee_index.dom().contains(f) && #[trigger] q.fee_index[f].contains(k) && !some.contains(
            k,
        ) implies q.txs.dom().contains(k) && q.txs[k].fee_per_byte as u128 == f by {
        assert(p.fee_index[f].contains(k));
    }
}

proof fn lemma_evicted_filed(p: PoolView)
    requires
        fees_true(p),
        mempool::evicted(p).1,
    ensures
        fees_true(mempool::evicted(p).0),
{
    reveal(mempool::evicted);
    if p.heap.len() > 0 {
        let i = mempool::cheapest(p.heap, p.heap.len());
        let low = p.heap[i];
        let id = tx::txid_of(low.tx);
        let q = PoolView { heap: p.heap.remove(i), ..p };
        lemma_same_filed(p, q, Set::empty());
        if low.fee_per_byte < p.avg_fee / 2 {
            lemma_removed_filed(q, id, q.txs.dom().len(), Set::empty());
            let r = mempool::removal(q, id).0;
            match pool_maps::at(r.by_parent, id) {
                Some(children) => {
                    lemma_all_removed_filed(
                        r,
                        children,
                        children.len(),
                        r.txs.dom().len(),
                        Set::empty(),
                    );
                },
                None => {},
            }
        }
    }
}

proof fn lemma_shrunk_filed(p: PoolView, n: nat)
    requires
        fees_true(p),
        mempool::shrunk(p, n).1,
    ensures
        fees_true(mempool::shrunk(p, n).0),
    decreases n,
{
    if mempool::too_large(p) && n > 0 {
        lemma_evicted_filed(p);
        lemma_shrunk_filed(mempool::evicted(p).0, (n - 1) as nat);
    }
}

proof fn lemma_enrolled_filed(p: PoolView, id: Seq<u8>, e: pool_maps::EntryView)
    requires
        fees_true(p),
        !p.txs.dom().contains(id),
    ensures
        fees_true(mempool::enrolled(p, id, e)),
{
    reveal(mempool::enrolled);
    let q = mempool::enrolled(p, id, e);
    let f0 = e.fee_per_byte as u128;
    let before = match pool_maps::at(p.fee_index, f0) {
        Some(s) => s,
        None => Seq::empty(),
    };
    assert(!before.contains(id));
    lemma_ordered(before, id);
    assert forall|f: u128, k: Seq<u8>|
        q.fee_index.dom().contains(f) && #[trigger] q.fee_index[f].contains(k) implies q.txs.dom()
        .contains(k) && q.txs[k].fee_per_byte as u128 == f by {
        if f == f0 {
            if k != id {
                assert(p.fee_index[f].contains(k));
            }
        } else {
            assert(p.fee_index[f].contains(k));
        }
    }
}

/// The lists by fee hold the transactions that pay that fee for each byte, each
/// once: that holds of an empty pool, and where it holds it goes on holding,
/// whatever is offered to the pool, taken out of it or put out of it, and
/// whatever grows too old, unless the pool gets stuck.
pub proof fn law_fees_stay_true(
    p: PoolView,
    db: store::Db,
    t: tx::TxView,
    now_ms: u128,
    r: Result<Admission, Fault>,
    q: PoolView,
    ids: Seq<Seq<u8>>,
    expiration_ms: u128,
    max_size: usize,
)
    requires
        fees_true(p),
        mempool::offered(p, db, t, now_ms, r, q),
    ensures
        fees_true(mempool::empty_pool(max_size)),
        r != Ok::<_, Fault>(Admission::Stuck) ==> fees_true(q),
        mempool::removals(p, ids).1 ==> fees_true(mempool::removals(p, ids).0),
        mempool::evicted(p).1 ==> fees_true(mempool::evicted(p).0),
        mempool::cleaned(p, now_ms, expiration_ms).1 ==> fees_true(
            mempool::cleaned(p, now_ms, expiration_ms).0,
        ),
{
    let id = tx::txid_of(t);
    if r != Ok::<_, Fault>(Admission::Stuck) && !p.txs.dom().contains(id) && mempool::entry_for(
        p,
        db,
        t,
        now_ms,
    ) is Ok {
        let e = mempool::entry_for(p, db, t, now_ms)->Ok_0;
        lemma_enrolled_filed(p, id, e);
        let x = mempool::enrolled(p, id, e);
        let a = mempool::avg_with(x.avg_fee, x.txs.dom().len(), e.fee_per_byte)->0;
        let y = PoolView { avg_fee: a, ..x };
        lemma_same_filed(x, y, Set::empty());
        lemma_shrunk_filed(y, y.heap.len());
        let s = mempool::taken_in(p, id, e).0;
        let gone = choose|gone: Seq<Seq<u8>>|
            mempool::lists_stranded(s, gone) && q == (#[trigger] mempool::removals(s, gone)).0
                && mempool::removals(s, gone).1;
        lemma_all_removed_filed(s, gone, gone.len(), s.txs.dom().len(), Set::empty());
    }
    if mempool::removals(p, ids).1 {
        lemma_all_removed_filed(p, ids, ids.len(), p.txs.dom().len(), Set::empty());
    }
    if mempool::evicted(p).1 {
        lemma_evicted_filed(p);
    }
    let (c, ok) = mempool::cleaned(p, now_ms, expiration_ms);
    if ok {
        let old = p.ttl.map_values(|a: (u128, Seq<u8>)| a.1);
        if p.ttl.len() > 0 && mempool::too_old(
            mempool::latest(p.ttl, p.ttl.len()),
            now_ms,
            expiration_ms,
        ) {
            lemma_all_removed_filed(p, old, old.len(), p.txs.dom().len(), Set::empty());
            lemma_same_filed(mempool::removals(p, old).0, c, Set::empty());
        } else {
            lemma_same_filed(p, c, Set::empty());
        }
    }
}

/// Whether what was chosen is in the pool under the identifiers that were
/// noted, each of which pays at least `floor` for each byte, and no more than
/// those before it.
pub open spec fn falling(p: PoolView, c: mempool::Chosen, floor: u128) -> bool {
    &&& c.txs.len() == c.included.len()
    &&& forall|i: int|
        0 <= i < c.included.len() ==> p.txs.dom().contains(#[trigger] c.included[i])
            && p.txs[c.included[i]].tx == c.txs[i] && p.txs[c.included[i]].fee_per_byte >= floor
    &&& forall|i: int, j: int|
        0 <= i < j < c.included.len() ==> p.txs[#[trigger] c.included[i]].fee_per_byte
            >= p.txs[#[trigger] c.included[j]].fee_per_byte
}

/// Whether no transaction of the pool depends on another.
pub open spec fn independent(p: PoolView) -> bool {
    forall|k: Seq<u8>| #[trigger]
        p.txs.dom().contains(k) ==> p.txs[k].depends_on.len() == 0
}

proof fn lemma_considered_falls(
    p: PoolView,
    max_size: nat,
    ids: Seq<Seq<u8>>,
    n: nat,
    c: mempool::Chosen,
    floor: u128,
)
    requires
        independent(p),
        falling(p, c, floor),
        n <= ids.len(),
        forall|i: int|
            0 <= i < n ==> p.txs.dom().contains(#[trigger] ids[i])
                && p.txs[ids[i]].fee_per_byte as u128 == floor,
    ensures
        falling(p, mempool::considered_all(p, max_size, ids, n, c), floor),
    decreases n,
{
    if n > 0 {
        lemma_considered_falls(p, max_size, ids, (n - 1) as nat, c, floor);
        let b = mempool::considered_all(p, max_size, ids, (n - 1) as nat, c);
        let id = ids[n - 1];
        let e = p.txs[id];
        let d = mempool::considered(p, max_size, id, b);
        assert(p.txs.dom().contains(id));
        assert(e.depends_on.len() == 0);
        if d.included.len() > b.included.len() {
            assert(d.included =~= b.included.push(id));
            assert(d.txs =~= b.txs.push(e.tx));
            assert forall|i: int| 0 <= i < d.included.len() implies p.txs.dom().contains(
                #[trigger] d.included[i],
            ) && p.txs[d.included[i]].tx == d.txs[i] && p.txs[d.included[i]].fee_per_byte
                >= floor by {
                if i < b.included.len() {
                    assert(d.included[i] == b.included[i]);
                }
            }
            assert forall|i: int, j: int| 0 <= i < j < d.included.len() implies p.txs[
            #[trigger] d.included[i]].fee_per_byte >= p.txs[
            #[trigger] d.included[j]].fee_per_byte by {
                assert(d.included[i] == b.included[i]);
                if j < b.included.len() {
                    assert(d.included[j] == b.included[j]);
                }
            }
        }
    }
}

/// Where no transaction depends on another, what is chosen for a block pays
/// less and less for each byte, or as much.
pub proof fn law_chosen_by_falling_fees(
    p: PoolView,
    max_size: nat,
    rates: Seq<u128>,
    n: nat,
)
    requires
        fees_true(p),
        independent(p),
        mempool::lists_rates(p, rates),
        n <= rates.len(),
    ensures
        falling(p, mempool::chosen(p, max_size, rates, n), if n == 0 {
            0
        } else {
            rates[n - 1]
        }),
    decreases n,
{
    if n > 0 {
        law_chosen_by_falling_fees(p, max_size, rates, (n - 1) as nat);
        let c = mempool::chosen(p, max_size, rates, (n - 1) as nat);
        let f = rates[n - 1];
        if n == 1 {
            assert(c.included.len() == 0);
        } else {
            assert(rates[n - 2] > f);
        }
        assert(falling(p, c, f));
        match pool_maps::at(p.fee_index, f) {
            Some(ids) => {
                assert forall|i: int| 0 <= i < ids.len() implies p.txs.dom().contains(
                    #[trigger] ids[i],
                ) && p.txs[ids[i]].fee_per_byte as u128 == f by {
                    assert(p.fee_index[f].contains(ids[i]));
                }
                lemma_considered_falls(p, max_size, ids, ids.len(), c, f);
            },
            None => {},
        }
    }
}

// ---------------------------------------------------------------------------
// Pools that nothing went wrong with
// ---------------------------------------------------------------------------

/// Whether the machine can count the bytes of as many transactions as the pool
/// may hold and one more, each as large as it may be.
pub open spec fn roomy() -> bool {
    (MAX_POOL_TXS + 1) * MAX_POOL_TX_SIZE <= usize::MAX
}

/// What holds of a pool that nothing went wrong with: its transactions are tied
/// to those that they depend on, it lists them by their fees and by nothing
/// else, it notes their key images, it holds no more than it may, and it counts
/// their bytes.
pub open spec fn settled(p: PoolView) -> bool {
    &&& families_kept(p)
    &&& fees_true(p)
    &&& mempool::fees_listed(p)
    &&& mempool::images_noted(p)
    &&& p.txs.dom().len() <= MAX_POOL_TXS
    &&& roomy() ==> mempool::counted(p)
}

proof fn lemma_bytes_bound(m: Map<Seq<u8>, pool_maps::EntryView>)
    requires
        m.dom().finite(),
        forall|id: Seq<u8>| #[trigger]
            m.dom().contains(id) ==> mempool::tx_size(m[id].tx) <= MAX_POOL_TX_SIZE,
    ensures
        mempool::bytes_in(m) <= m.dom().len() * MAX_POOL_TX_SIZE,
    decreases m.dom().len(),
{
    if m.dom().len() > 0 {
        let id = m.dom().choose();
        let rest = m.remove(id);
        assert(rest.dom() =~= m.dom().remove(id));
        lemma_bytes_bound(rest);
        assert((m.dom().len() - 1) * MAX_POOL_TX_SIZE + MAX_POOL_TX_SIZE == m.dom().len()
            * MAX_POOL_TX_SIZE) by (nonlinear_arith);
    }
}

/// Taking transactions out of a settled pool leaves a settled pool, where the
/// average fee could be kept.
pub proof fn lemma_settled_removals(p: PoolView, ids: Seq<Seq<u8>>)
    requires
        mempool::pool_ok(p),
        settled(p),
        mempool::removals(p, ids).1,
    ensures
        mempool::pool_ok(mempool::removals(p, ids).0),
        settled(mempool::removals(p, ids).0),
{
    let fuel = p.txs.dom().len();
    lemma_all_removed_tied(p, ids, ids.len(), fuel, Set::empty());
    lemma_all_removed_filed(p, ids, ids.len(), fuel, Set::empty());
    mempool::lemma_removals_keep(p, ids, ids.len(), fuel);
    mempool::lemma_removals_only_take(p, ids, ids.len(), fuel);
    mempool::lemma_less_len(p, mempool::removals(p, ids).0);
}

/// Taking one transaction out is taking out a list of it alone.
pub proof fn lemma_one_removal(p: PoolView, id: Seq<u8>)
    ensures
        mempool::removals(p, seq![id]) == mempool::removal(p, id),
{
    reveal_with_fuel(mempool::removed_all, 2);
    assert(seq![id][0] == id);
}

/// Putting an entry out of a settled pool leaves a settled pool, where the
/// average fee could be kept.
pub proof fn lemma_settled_evicted(p: PoolView)
    requires
        mempool::pool_ok(p),
        settled(p),
        mempool::evicted(p).1,
    ensures
        mempool::pool_ok(mempool::evicted(p).0),
        settled(mempool::evicted(p).0),
{
    lemma_evicted_tied(p);
    lemma_evicted_filed(p);
    mempool::lemma_evicted_keeps(p);
    lemma_evicted_less(p);
}

proof fn lemma_evicted_less(p: PoolView)
    requires
        mempool::pool_ok(p),
    ensures
        mempool::pool_ok(mempool::evicted(p).0),
        mempool::evicted(p).0.txs.dom().len() <= p.txs.dom().len(),
        mempool::evicted(p).0.max_size == p.max_size,
{
    reveal(mempool::evicted);
    if p.heap.len() > 0 {
        let i = mempool::cheapest(p.heap, p.heap.len());
        let id = tx::txid_of(p.heap[i].tx);
        let q = PoolView { heap: p.heap.remove(i), ..p };
        mempool::law_removal_only_takes(q, id, q.txs.dom().len());
        let r = mempool::removal(q, id).0;
        mempool::lemma_less_len(q, r);
        match pool_maps::at(r.by_parent, id) {
            Some(children) => {
                mempool::lemma_removals_only_take(
                    r,
                    children,
                    children.len(),
                    r.txs.dom().len(),
                );
                mempool::lemma_less_len(r, mempool::removals(r, children).0);
            },
            None => {},
        }
    }
}

proof fn lemma_shrunk_less(p: PoolView, n: nat)
    requires
        mempool::pool_ok(p),
    ensures
        mempool::pool_ok(mempool::shrunk(p, n).0),
        mempool::shrunk(p, n).0.max_size == p.max_size,
    decreases n,
{
    if mempool::too_large(p) && n > 0 {
        lemma_evicted_less(p);
        if mempool::evicted(p).1 {
            lemma_shrunk_less(mempool::evicted(p).0, (n - 1) as nat);
        }
    }
}

/// Forgetting old transactions of a settled pool leaves a settled pool, where
/// the average fee could be kept.
pub proof fn lemma_settled_cleaned(p: PoolView, now_ms: u128, expiration_ms: u128)
    requires
        mempool::pool_ok(p),
        settled(p),
        mempool::cleaned(p, now_ms, expiration_ms).1,
    ensures
        mempool::pool_ok(mempool::cleaned(p, now_ms, expiration_ms).0),
        settled(mempool::cleaned(p, now_ms, expiration_ms).0),
{
    let c = mempool::cleaned(p, now_ms, expiration_ms).0;
    let old = p.ttl.map_values(|a: (u128, Seq<u8>)| a.1);
    mempool::lemma_cleaned_keeps(p, now_ms, expiration_ms);
    if p.ttl.len() > 0 && mempool::too_old(
        mempool::latest(p.ttl, p.ttl.len()),
        now_ms,
        expiration_ms,
    ) {
        lemma_settled_removals(p, old);
        lemma_same_tied(mempool::removals(p, old).0, c);
        lemma_same_filed(mempool::removals(p, old).0, c, Set::empty());
    } else {
        lemma_same_tied(p, c);
        lemma_same_filed(p, c, Set::empty());
    }
}

/// A settled pool has no transaction that misses another, so what was added
/// stays as the pool was brought within its limits.
proof fn lemma_added_fits(
    p: PoolView,
    db: store::Db,
    t: tx::TxView,
    now_ms: u128,
    q: PoolView,
)
    requires
        mempool::pool_ok(p),
        families_kept(p),
        mempool::offered(p, db, t, now_ms, Ok::<_, Fault>(Admission::Added), q),
    ensures
        mempool::pool_ok(q),
        !mempool::too_large(q),
        q.max_size == p.max_size,
{
    let id = tx::txid_of(t);
    let e = mempool::entry_for(p, db, t, now_ms)->Ok_0;
    lemma_entry_here(p, db, t, now_ms);
    lemma_enrolled_tied(p, id, e);
    mempool::lemma_entry_made(p, db, t, now_ms);
    let x = mempool::enrolled(p, id, e);
    assert(mempool::pool_ok(x) && x.max_size == p.max_size) by {
        reveal(mempool::enrolled);
    }
    let a = mempool::avg_with(x.avg_fee, x.txs.dom().len(), e.fee_per_byte)->0;
    let y = PoolView { avg_fee: a, ..x };
    lemma_same_tied(x, y);
    lemma_shrunk_tied(y, y.heap.len());
    lemma_shrunk_less(y, y.heap.len());
    mempool::lemma_shrunk_fits(y, y.heap.len());
    let s = mempool::taken_in(p, id, e).0;
    let ids = choose|ids: Seq<Seq<u8>>|
        mempool::lists_stranded(s, ids) && q == (#[trigger] mempool::removals(s, ids)).0
            && mempool::removals(s, ids).1;
    if ids.len() > 0 {
        let k = ids[0];
        assert(ids.contains(k));
        let i = choose|i: int|
            0 <= i < s.txs[k].depends_on.len() && !s.txs.dom().contains(
                #[trigger] s.txs[k].depends_on[i],
            );
        assert(tied(s, k, s.txs[k].depends_on[i]));
    }
    assert(q == s);
}

/// A transaction that is offered to a settled pool leaves a settled pool, unless
/// the pool gets stuck.
pub proof fn lemma_settled_offered(
    p: PoolView,
    db: store::Db,
    t: tx::TxView,
    now_ms: u128,
    r: Result<Admission, Fault>,
    q: PoolView,
)
    requires
        mempool::pool_ok(p),
        settled(p),
        mempool::offered(p, db, t, now_ms, r, q),
        r != Ok::<_, Fault>(Admission::Stuck),
    ensures
        mempool::pool_ok(q),
        settled(q),
{
    law_fees_stay_true(p, db, t, now_ms, r, q, Seq::empty(), 0, 0);
    lemma_offered_tied(p, db, t, now_ms, r, q);
    if r == Ok::<_, Fault>(Admission::Added) {
        lemma_added_fits(p, db, t, now_ms, q);
    }
    lemma_bytes_bound(p.txs);
    if roomy() {
        assert(p.txs.dom().len() * MAX_POOL_TX_SIZE + MAX_POOL_TX_SIZE <= (MAX_POOL_TXS + 1)
            * MAX_POOL_TX_SIZE) by (nonlinear_arith)
            requires
                p.txs.dom().len() <= MAX_POOL_TXS,
        ;
    }
    mempool::lemma_offered_keeps(p, db, t, now_ms, r, q);
}

/// A settled pool with another limit is settled.
pub proof fn lemma_settled_limit(p: PoolView, max_size: usize)
    requires
        settled(p),
    ensures
        settled(PoolView { max_size, ..p }),
{
    let q = PoolView { max_size, ..p };
    lemma_same_tied(p, q);
    lemma_same_filed(p, q, Set::empty());
}

/// An empty pool is settled.
pub proof fn lemma_settled_empty(max_size: usize)
    ensures
        mempool::pool_ok(mempool::empty_pool(max_size)),
        settled(mempool::empty_pool(max_size)),
{
    let p = mempool::empty_pool(max_size);
    assert(p.txs.dom() =~= Set::<Seq<u8>>::empty());
}

/// After a transaction was added to a settled pool, the pool has no more bytes
/// and no more transactions than it may have, and every transaction that one of
/// it depends on is in it.
pub proof fn law_added_keeps_limits(
    p: PoolView,
    db: store::Db,
    t: tx::TxView,
    now_ms: u128,
    q: PoolView,
)
    requires
        mempool::pool_ok(p),
        settled(p),
        mempool::offered(p, db, t, now_ms, Ok::<_, Fault>(Admission::Added), q),
    ensures
        settled(q),
        q.max_size == p.max_size,
        q.total_bytes <= q.max_size,
        roomy() ==> mempool::bytes_in(q.txs) <= q.max_size,
        q.txs.dom().len() <= MAX_POOL_TXS,
        forall|k: Seq<u8>| #[trigger]
            q.txs.dom().contains(k) ==> all_here(q, q.txs[k].depends_on),
{
    lemma_settled_offered(p, db, t, now_ms, Ok::<_, Fault>(Admission::Added), q);
    lemma_added_fits(p, db, t, now_ms, q);
    law_no_dependency_is_missing(p, db, t, now_ms, q);
}

/// Whether a method changes a pool into another, and nothing goes wrong.
pub open spec fn changes_to(p: PoolView, q: PoolView) -> bool {
    ||| exists|db: store::Db, t: tx::TxView, now_ms: u128, r: Result<Admission, Fault>| #[trigger]
        mempool::offered(p, db, t, now_ms, r, q) && r != Ok::<_, Fault>(Admission::Stuck)
    ||| exists|ids: Seq<Seq<u8>>| (q, true) == #[trigger] mempool::removals(p, ids)
    ||| (q, true) == mempool::evicted(p)
    ||| exists|now_ms: u128, expiration_ms: u128|
        (q, true) == #[trigger] mempool::cleaned(p, now_ms, expiration_ms)
    ||| q == (PoolView { max_size: q.max_size, ..p })
}

/// Whether pools follow one another, from an empty one on, each changed into the
/// next by a method with which nothing goes wrong.
pub open spec fn built(pools: Seq<PoolView>, max_size: usize) -> bool {
    &&& pools.len() > 0
    &&& pools[0] == mempool::empty_pool(max_size)
    &&& forall|i: int| 0 <= i < pools.len() - 1 ==> #[trigger] changes_to(pools[i], pools[i + 1])
}

proof fn lemma_settled_changes(p: PoolView, q: PoolView)
    requires
        mempool::pool_ok(p),
        settled(p),
        changes_to(p, q),
    ensures
        mempool::pool_ok(q),
        settled(q),
{
    if exists|db: store::Db, t: tx::TxView, now_ms: u128, r: Result<Admission, Fault>| #[trigger]
        mempool::offered(p, db, t, now_ms, r, q) && r != Ok::<_, Fault>(Admission::Stuck) {
        let (db, t, now_ms, r) = choose|
            db: store::Db,
            t: tx::TxView,
            now_ms: u128,
            r: Result<Admission, Fault>,
        | #[trigger]
            mempool::offered(p, db, t, now_ms, r, q) && r != Ok::<_, Fault>(Admission::Stuck);
        lemma_settled_offered(p, db, t, now_ms, r, q);
    } else if exists|ids: Seq<Seq<u8>>| (q, true) == #[trigger] mempool::removals(p, ids) {
        let ids = choose|ids: Seq<Seq<u8>>| (q, true) == #[trigger] mempool::removals(p, ids);
        lemma_settled_removals(p, ids);
    } else if (q, true) == mempool::evicted(p) {
        lemma_settled_evicted(p);
    } else if exists|now_ms: u128, expiration_ms: u128|
        (q, true) == #[trigger] mempool::cleaned(p, now_ms, expiration_ms) {
        let (now_ms, expiration_ms) = choose|now_ms: u128, expiration_ms: u128|
            (q, true) == #[trigger] mempool::cleaned(p, now_ms, expiration_ms);
        lemma_settled_cleaned(p, now_ms, expiration_ms);
    } else {
        lemma_settled_limit(p, q.max_size);
    }
}

/// Every pool that is built from an empty one by the pool's own methods, while
/// nothing goes wrong, is settled.
pub proof fn law_built_pools_are_settled(pools: Seq<PoolView>, max_size: usize)
    requires
        built(pools, max_size),
    ensures
        mempool::pool_ok(pools.last()),
        settled(pools.last()),
    decreases pools.len(),
{
    if pools.len() == 1 {
        lemma_settled_empty(max_size);
    } else {
        let before = pools.drop_last();
        assert forall|i: int| 0 <= i < before.len() - 1 implies #[trigger] changes_to(
            before[i],
            before[i + 1],
        ) by {
            assert(changes_to(pools[i], pools[i + 1]));
        }
        law_built_pools_are_settled(before, max_size);
        let n = pools.len() - 2;
        assert(changes_to(pools[n], pools[n + 1]));
        lemma_settled_changes(before.last(), pools.last());
    }
}

/// After a transaction was added to a pool that was built from an empty one by
/// the pool's own methods, the pool has no more bytes and no more transactions
/// than it may have, and every transaction that one of it depends on is in it.
pub proof fn law_built_pools_keep_limits(
    pools: Seq<PoolView>,
    max_size: usize,
    db: store::Db,
    t: tx::TxView,
    now_ms: u128,
    q: PoolView,
)
    requires
        built(pools, max_size),
        mempool::offered(pools.last(), db, t, now_ms, Ok::<_, Fault>(Admission::Added), q),
    ensures
        q.total_bytes <= q.max_size,
        q.txs.dom().len() <= MAX_POOL_TXS,
        forall|k: Seq<u8>| #[trigger]
            q.txs.dom().contains(k) ==> all_here(q, q.txs[k].depends_on),
{
    law_built_pools_are_settled(pools, max_size);
    law_added_keeps_limits(pools.last(), db, t, now_ms, q);
}

} // verus!
