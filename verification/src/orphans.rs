//! Blocks whose predecessor is not known yet.
use crate::bytes;
use crate::bytes::same32;
use crate::params::{MAX_ORPHANS, ORPHAN_TTL_MS};
use crate::tx;
use crate::tx::Block;
use vstd::prelude::*;

verus! {

/// How many times the waiting blocks are gone through.
pub const MAX_ORPHAN_ROUNDS: usize = 500;

/// A block that waits for its predecessor.
pub struct Orphan {
    /// The block's hash.
    pub hash: [u8; 32],
    /// The block.
    pub block: Block,
    /// When it came, in milliseconds.
    pub time: u128,
}

/// What an [`Orphan`] says.
pub struct OrphanView {
    pub hash: Seq<u8>,
    pub block: tx::BlockView,
    pub time: u128,
}

impl View for Orphan {
    type V = OrphanView;

    open spec fn view(&self) -> OrphanView {
        OrphanView { hash: self.hash@, block: self.block@, time: self.time }
    }
}

/// What waiting blocks say.
pub open spec fn views(v: Seq<Orphan>) -> Seq<OrphanView> {
    v.map_values(|o: Orphan| o@)
}

/// Whether a block waits.
pub open spec fn waits(s: Seq<OrphanView>, hash: Seq<u8>) -> bool {
    exists|i: int| 0 <= i < s.len() && (#[trigger] s[i]).hash == hash
}

/// Whether no block waits twice.
pub open spec fn distinct(s: Seq<OrphanView>) -> bool {
    forall|i: int, j: int|
        0 <= i < j < s.len() ==> (#[trigger] s[i]).hash != (#[trigger] s[j]).hash
}

/// A block waits; one that waited already waits anew.
pub open spec fn with_orphan(s: Seq<OrphanView>, o: OrphanView) -> Seq<OrphanView> {
    if waits(s, o.hash) {
        s.map_values(
            |x: OrphanView|
                if x.hash == o.hash {
                    o
                } else {
                    x
                },
        )
    } else {
        s.push(o)
    }
}

/// The place of the block among the first `n` that has waited longest, the
/// first of several.
pub open spec fn oldest(s: Seq<OrphanView>, n: nat) -> int
    decreases n,
{
    if n <= 1 {
        0
    } else {
        let j = oldest(s, (n - 1) as nat);
        if s[n - 1].time < s[j].time {
            n - 1
        } else {
            j
        }
    }
}

/// The waiting blocks without the one that has waited longest, where they are
/// too many.
pub open spec fn bounded(s: Seq<OrphanView>) -> Seq<OrphanView> {
    if s.len() > MAX_ORPHANS {
        s.remove(oldest(s, s.len()))
    } else {
        s
    }
}

/// Whether a block has waited too long.
pub open spec fn expired(o: OrphanView, now: u128) -> bool {
    now - o.time >= ORPHAN_TTL_MS
}

/// Those of the first `n` that have not waited too long.
pub open spec fn fresh(s: Seq<OrphanView>, now: u128, n: nat) -> Seq<OrphanView>
    decreases n,
{
    if n == 0 {
        Seq::empty()
    } else if expired(s[n - 1], now) {
        fresh(s, now, (n - 1) as nat)
    } else {
        fresh(s, now, (n - 1) as nat).push(s[n - 1])
    }
}

/// The place of the longest waiting block is one of the places, and no block
/// has waited longer.
pub proof fn law_oldest_is_oldest(s: Seq<OrphanView>, n: nat, i: int)
    requires
        0 < n <= s.len(),
        0 <= i < n,
    ensures
        0 <= oldest(s, n) < n,
        s[oldest(s, n)].time <= s[i].time,
    decreases n,
{
    if n > 1 {
        if i < n - 1 {
            law_oldest_is_oldest(s, (n - 1) as nat, i);
        } else {
            law_oldest_is_oldest(s, (n - 1) as nat, 0);
        }
    }
}

/// The number of waiting blocks is bounded: adding one to at most the limit
/// leaves at most the limit.
pub proof fn law_orphans_bounded(s: Seq<OrphanView>, o: OrphanView)
    requires
        s.len() <= MAX_ORPHANS,
    ensures
        bounded(with_orphan(s, o)).len() <= MAX_ORPHANS,
{
    let t = with_orphan(s, o);
    if t.len() > MAX_ORPHANS {
        law_oldest_is_oldest(t, t.len(), 0);
    }
}

/// Makes a block wait.
pub fn insert_orphan(v: &mut Vec<Orphan>, o: Orphan)
    requires
        distinct(views(old(v)@)),
    ensures
        views(final(v)@) == with_orphan(views(old(v)@), o@),
        distinct(views(final(v)@)),
{
    let ghost s = views(v@);
    let mut i: usize = 0;
    while i < v.len()
        invariant
            i <= v@.len(),
            v@ == old(v)@,
            s == views(v@),
            distinct(s),
            forall|j: int| 0 <= j < i ==> (#[trigger] s[j]).hash != o@.hash,
        decreases v@.len() - i,
    {
        proof {
            bytes::lemma_id_ext(v@[i as int].hash, o.hash);
            assert(s[i as int] == v@[i as int]@);
        }
        if same32(&v[i].hash, &o.hash) {
            let ghost w = with_orphan(s, o@);
            assert(waits(s, o@.hash));
            v.set(i, o);
            proof {
                assert forall|j: int| 0 <= j < s.len() implies views(v@)[j] == #[trigger] w[j] by {
                    if j != i {
                        if j < i {
                            assert(s[j].hash != s[i as int].hash);
                        } else {
                            assert(s[i as int].hash != s[j].hash);
                        }
                    }
                }
                assert(views(v@) =~= w);
                assert forall|a: int, b: int| 0 <= a < b < w.len() implies (#[trigger] w[a]).hash
                    != (#[trigger] w[b]).hash by {
                    assert(w[a].hash == s[a].hash);
                    assert(w[b].hash == s[b].hash);
                }
            }
            return ;
        }
        i += 1;
    }
    v.push(o);
    proof {
        assert(!waits(s, o@.hash));
        assert(views(v@) =~= s.push(o@));
        let w = s.push(o@);
        assert forall|a: int, b: int| 0 <= a < b < w.len() implies (#[trigger] w[a]).hash != (
        #[trigger] w[b]).hash by {
            assert(w[a] == s[a]);
            if b < s.len() {
                assert(w[b] == s[b]);
            }
        }
    }
}

/// Takes out the block that has waited longest, where they are too many.
pub fn bound_orphans(v: &mut Vec<Orphan>)
    requires
        distinct(views(old(v)@)),
    ensures
        views(final(v)@) == bounded(views(old(v)@)),
        distinct(views(final(v)@)),
{
    let ghost s = views(v@);
    if v.len() > MAX_ORPHANS {
        let mut j: usize = 0;
        let mut n: usize = 1;
        while n < v.len()
            invariant
                1 <= n <= v@.len(),
                j < n,
                v@ == old(v)@,
                s == views(v@),
                j == oldest(s, n as nat),
            decreases v@.len() - n,
        {
            assert(s[n as int] == v@[n as int]@);
            assert(s[j as int] == v@[j as int]@);
            if v[n].time < v[j].time {
                j = n;
            }
            n += 1;
        }
        v.remove(j);
        proof {
            let w = s.remove(j as int);
            assert(views(v@) =~= w);
            assert forall|a: int, b: int| 0 <= a < b < w.len() implies (#[trigger] w[a]).hash != (
            #[trigger] w[b]).hash by {
                let x = if a < j {
                    a
                } else {
                    a + 1
                };
                let y = if b < j {
                    b
                } else {
                    b + 1
                };
                assert(w[a] == s[x]);
                assert(w[b] == s[y]);
            }
        }
    }
}

impl Clone for Orphan {
    fn clone(&self) -> (r: Self)
        ensures
            r@ == self@,
    {
        Orphan { hash: self.hash, block: self.block.clone(), time: self.time }
    }
}

/// The blocks that have not waited too long.
pub fn keep_fresh(v: &Vec<Orphan>, now: u128) -> (r: Vec<Orphan>)
    ensures
        views(r@) == fresh(views(v@), now, v@.len()),
{
    let ghost s = views(v@);
    let mut out: Vec<Orphan> = Vec::new();
    let mut i: usize = 0;
    assert(views(out@) =~= fresh(s, now, 0));
    while i < v.len()
        invariant
            i <= v@.len(),
            s == views(v@),
            views(out@) == fresh(s, now, i as nat),
        decreases v@.len() - i,
    {
        assert(s[i as int] == v@[i as int]@);
        if now.saturating_sub(v[i].time) < ORPHAN_TTL_MS {
            let ghost before = views(out@);
            out.push(v[i].clone());
            assert(views(out@) =~= before.push(s[i as int]));
        }
        i += 1;
    }
    out
}

/// Leaving out blocks that have waited too long leaves no block waiting twice.
pub proof fn lemma_fresh_distinct(s: Seq<OrphanView>, now: u128, n: nat)
    requires
        distinct(s),
        n <= s.len(),
    ensures
        distinct(fresh(s, now, n)),
        forall|i: int|
            0 <= i < fresh(s, now, n).len() ==> exists|j: int|
                0 <= j < n && s[j] == #[trigger] fresh(s, now, n)[i],
    decreases n,
{
    if n > 0 {
        let m = (n - 1) as nat;
        lemma_fresh_distinct(s, now, m);
        let f = fresh(s, now, m);
        let g = fresh(s, now, n);
        if !expired(s[n - 1], now) {
            assert forall|i: int, j: int| 0 <= i < j < g.len() implies (#[trigger] g[i]).hash != (
            #[trigger] g[j]).hash by {
                assert(g[i] == f[i]);
                if j == f.len() {
                    let k = choose|k: int| 0 <= k < m && s[k] == f[i];
                    assert(s[k].hash != s[n - 1].hash);
                } else {
                    assert(g[j] == f[j]);
                }
            }
            assert forall|i: int| 0 <= i < g.len() implies exists|j: int|
                0 <= j < n && s[j] == #[trigger] g[i] by {
                if i < f.len() {
                    assert(g[i] == f[i]);
                    let k = choose|k: int| 0 <= k < m && s[k] == f[i];
                    assert(s[k] == g[i]);
                } else {
                    assert(s[n - 1] == g[i]);
                }
            }
        } else {
            assert forall|i: int| 0 <= i < g.len() implies exists|j: int|
                0 <= j < n && s[j] == #[trigger] g[i] by {
                let k = choose|k: int| 0 <= k < m && s[k] == f[i];
                assert(s[k] == g[i]);
            }
        }
    }
}

// ---------------------------------------------------------------------------
// Going through the waiting blocks
// ---------------------------------------------------------------------------

/// A run through the waiting blocks: each is tried in its turn, and those that
/// could not be added are tried again as long as a round adds one.
pub struct OrphanRun {
    queue: Vec<Orphan>,
    left: Vec<Orphan>,
    added: bool,
    rounds: usize,
}

/// What an [`OrphanRun`] says: the blocks still to try in this round, the next
/// one last, those that could not be added, whether one was added, and how many
/// rounds began.
pub struct RunView {
    pub queue: Seq<OrphanView>,
    pub left: Seq<OrphanView>,
    pub added: bool,
    pub rounds: usize,
}

impl View for OrphanRun {
    type V = RunView;

    closed spec fn view(&self) -> RunView {
        RunView {
            queue: views(self.queue@),
            left: views(self.left@),
            added: self.added,
            rounds: self.rounds,
        }
    }
}

/// Whether another round is due: the last one is through, one was added in it,
/// some are left, and the rounds are not used up.
pub open spec fn another_round(r: RunView) -> bool {
    r.queue.len() == 0 && r.added && r.left.len() > 0 && r.rounds < MAX_ORPHAN_ROUNDS
}

/// The run with a new round begun where one is due: those that are left are
/// tried again, the last left first.
pub open spec fn turned(r: RunView) -> RunView {
    if another_round(r) {
        RunView {
            queue: r.left,
            left: Seq::empty(),
            added: false,
            rounds: (r.rounds + 1) as usize,
        }
    } else {
        r
    }
}

/// The run after the next block was tried.
pub open spec fn reported(r: RunView, added: bool) -> RunView {
    turned(
        if added {
            RunView { queue: r.queue.drop_last(), added: true, ..r }
        } else {
            RunView { queue: r.queue.drop_last(), left: r.left.push(r.queue.last()), ..r }
        },
    )
}

impl OrphanRun {
    /// A run through blocks.
    pub fn start(queue: Vec<Orphan>) -> (r: Self)
        ensures
            r@ == (RunView {
                queue: views(queue@),
                left: Seq::empty(),
                added: false,
                rounds: 1,
            }),
    {
        let r = OrphanRun { queue, left: Vec::new(), added: false, rounds: 1 };
        assert(r@.left =~= Seq::<OrphanView>::empty());
        r
    }

    /// The next block to try.
    pub fn next(&self) -> (r: Option<&Orphan>)
        ensures
            match r {
                Some(o) => self@.queue.len() > 0 && o@ == self@.queue.last(),
                None => self@.queue.len() == 0,
            },
    {
        let n: usize = self.queue.len();
        if n == 0 {
            None
        } else {
            Some(&self.queue[n - 1])
        }
    }

    /// Says whether the next block was added.
    pub fn report(&mut self, added: bool)
        requires
            old(self)@.queue.len() > 0,
        ensures
            final(self)@ == reported(old(self)@, added),
    {
        let ghost before = self@;
        match self.queue.pop() {
            Some(o) => {
                assert(o@ == before.queue.last());
                assert(views(self.queue@) =~= before.queue.drop_last());
                if added {
                    self.added = true;
                } else {
                    self.left.push(o);
                    assert(views(self.left@) =~= before.left.push(o@));
                }
            },
            None => {},
        }
        if self.queue.len() == 0 && self.added && self.left.len() > 0 && self.rounds
            < MAX_ORPHAN_ROUNDS {
            let ghost mid = self@;
            std::mem::swap(&mut self.queue, &mut self.left);
            self.added = false;
            self.rounds += 1;
            assert(self@.left =~= Seq::<OrphanView>::empty());
        }
    }

    /// What is left, each with the time given.
    pub fn finish(self, now: u128) -> (r: Vec<Orphan>)
        ensures
            views(r@) == (self@.left + self@.queue).map_values(
                |o: OrphanView| OrphanView { time: now, ..o },
            ),
    {
        let mut out: Vec<Orphan> = Vec::new();
        let mut all = self.left;
        let mut queue = self.queue;
        all.append(&mut queue);
        assert(views(all@) =~= self@.left + self@.queue);
        let ghost s = views(all@);
        let mut i: usize = 0;
        while i < all.len()
            invariant
                i <= all@.len(),
                s == views(all@),
                out@.len() == i,
                forall|j: int|
                    0 <= j < i ==> (#[trigger] out@[j])@ == (OrphanView { time: now, ..s[j] }),
            decreases all@.len() - i,
        {
            out.push(Orphan { hash: all[i].hash, block: all[i].block.clone(), time: now });
            i += 1;
        }
        assert(views(out@) =~= s.map_values(|o: OrphanView| OrphanView { time: now, ..o }));
        out
    }
}

/// No more than 500 blocks wait at a time: a new one waits with what it brings, in place of itself where it waited
/// already; every other stays; but where 500 wait already and the new one is
/// not among them, one of those that have waited longest goes.
pub proof fn law_new_orphan_waits(s: Seq<OrphanView>, o: OrphanView) -> (gone: OrphanView)
    requires
        s.len() <= 500,
        distinct(s),
    ensures
        ({
            let t = bounded(with_orphan(s, o));
            let again = exists|i: int| 0 <= i < s.len() && (#[trigger] s[i]).hash == o.hash;
            let full = s.len() == 500 && !again;
            &&& t.len() == if again || full {
                s.len()
            } else {
                s.len() + 1
            }
            &&& !full ==> t.contains(o)
            &&& !full ==> forall|x: OrphanView|
                #![trigger t.contains(x)]
                s.contains(x) && x.hash != o.hash ==> t.contains(x)
            &&& full ==> s.push(o).contains(gone) && forall|i: int|
                0 <= i < s.len() ==> gone.time <= (#[trigger] s[i]).time
            &&& full ==> gone.time <= o.time
            &&& full ==> forall|x: OrphanView|
                #![trigger t.contains(x)]
                s.push(o).contains(x) && x != gone ==> t.contains(x)
            &&& forall|x: OrphanView|
                #![trigger t.contains(x)]
                t.contains(x) ==> x == o || s.contains(x)
        }),
{
    let w = with_orphan(s, o);
    let t = bounded(w);
    if waits(s, o.hash) {
        let k = choose|k: int| 0 <= k < s.len() && (#[trigger] s[k]).hash == o.hash;
        assert(t[k] == o);
        assert forall|x: OrphanView| #![trigger t.contains(x)]
            s.contains(x) && x.hash != o.hash implies t.contains(x) by {
            let j = s.index_of(x);
            assert(t[j] == x);
        }
        assert forall|x: OrphanView| #![trigger t.contains(x)] t.contains(x) implies x == o
            || s.contains(x) by {
            let j = t.index_of(x);
            assert(t[j] == x);
            if s[j].hash != o.hash {
                assert(s[j] == x);
            }
        }
        o
    } else if s.len() < 500 {
        assert(t == s.push(o));
        assert(t[s.len() as int] == o);
        assert forall|x: OrphanView| #![trigger t.contains(x)]
            s.contains(x) && x.hash != o.hash implies t.contains(x) by {
            let j = s.index_of(x);
            assert(t[j] == x);
        }
        assert forall|x: OrphanView| #![trigger t.contains(x)] t.contains(x) implies x == o
            || s.contains(x) by {
            let j = t.index_of(x);
            if j < s.len() {
                assert(s[j] == x);
            }
        }
        o
    } else {
        assert(w == s.push(o));
        let j = oldest(w, w.len());
        law_oldest_is_oldest(w, w.len(), 0);
        let gone = w[j];
        assert(t == w.remove(j));
        assert forall|i: int| 0 <= i < s.len() implies gone.time <= (#[trigger] s[i]).time by {
            law_oldest_is_oldest(w, w.len(), i);
            assert(w[i] == s[i]);
        }
        law_oldest_is_oldest(w, w.len(), s.len() as int);
        assert forall|x: OrphanView| #![trigger t.contains(x)]
            s.push(o).contains(x) && x != gone implies t.contains(x) by {
            let i = w.index_of(x);
            if i < j {
                assert(t[i] == x);
            } else {
                assert(t[i - 1] == x);
            }
        }
        assert forall|x: OrphanView| #![trigger t.contains(x)] t.contains(x) implies x == o
            || s.contains(x) by {
            let i = t.index_of(x);
            let k = if i < j {
                i
            } else {
                i + 1
            };
            assert(w[k] == x);
            if k < s.len() {
                assert(s[k] == x);
            }
        }
        gone
    }
}

/// The blocks that go on waiting are those that came less than 3600000
/// milliseconds ago, in their order.
pub proof fn law_fresh_orphans(s: Seq<OrphanView>, now: u128, n: nat)
    requires
        n <= s.len(),
    ensures
        fresh(s, now, n) == s.take(n as int).filter(|o: OrphanView| now - o.time < 3_600_000),
    decreases n,
{
    let keep = |o: OrphanView| now - o.time < 3_600_000;
    reveal(Seq::filter);
    if n == 0 {
        assert(s.take(0).filter(keep) =~= Seq::<OrphanView>::empty());
    } else {
        law_fresh_orphans(s, now, (n - 1) as nat);
        assert(s.take(n as int).drop_last() =~= s.take(n - 1));
        assert(s.take(n as int).last() == s[n - 1]);
    }
}

/// A run through the waiting blocks loses none: a block that was tried is no
/// longer among those to try or left exactly where it was added; and those left
/// are tried again only where a round is through that added one, and no more
/// than 500 rounds are begun.
pub proof fn law_run_loses_none(r: RunView, added: bool)
    requires
        r.queue.len() > 0,
        r.rounds <= 500,
    ensures
        ({
            let q = reported(r, added);
            &&& (q.queue + q.left).to_multiset() == if added {
                (r.queue + r.left).to_multiset().remove(r.queue.last())
            } else {
                (r.queue + r.left).to_multiset()
            }
            &&& q.rounds == r.rounds || q.rounds == r.rounds + 1
            &&& q.rounds <= 500
            &&& q.rounds == r.rounds + 1 <==> r.queue.len() == 1 && (r.added || added) && (
            r.left.len() > 0 || !added) && r.rounds < 500
            &&& q.rounds == r.rounds ==> q.queue == r.queue.drop_last() && q.added == (r.added
                || added)
            &&& q.rounds == r.rounds + 1 ==> q.left.len() == 0 && !q.added
        }),
{
    broadcast use vstd::seq_lib::group_to_multiset_ensures;
    let last = r.queue.last();
    let rest = r.queue.drop_last();
    let left = if added {
        r.left
    } else {
        r.left.push(last)
    };
    assert(r.queue =~= rest.push(last));
    vstd::seq_lib::lemma_multiset_commutative(r.queue, r.left);
    vstd::seq_lib::lemma_multiset_commutative(rest, left);
    vstd::seq_lib::lemma_multiset_commutative(left, rest);
    vstd::seq_lib::lemma_multiset_commutative(rest, r.left);
    assert(rest.push(last).to_multiset() =~= rest.to_multiset().insert(last));
    assert(r.left.push(last).to_multiset() =~= r.left.to_multiset().insert(last));
    let q = reported(r, added);
    assert((q.queue + q.left).to_multiset() =~= (rest + left).to_multiset()) by {
        if q.rounds != r.rounds {
            assert(q.queue + q.left =~= left + rest);
        }
    }
    assert((rest + left).to_multiset() =~= rest.to_multiset().add(left.to_multiset()));
    assert((r.queue + r.left).to_multiset() =~= r.queue.to_multiset().add(r.left.to_multiset()));
}

} // verus!
