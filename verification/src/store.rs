//! What the database holds, and lists of writes to it.
//!
//! The database maps a column family and a key to a value. The library reads
//! it through a [`Snapshot`] and hands back the writes that it wants made, so
//! that the caller can make them all at once.
use crate::bytes::{copy_bytes, same_bytes};
use vstd::prelude::*;

verus! {

/// The column families of the database.
#[derive(Debug, Clone, Copy, PartialEq, Eq, Structural)]
pub enum Cf {
    /// Blocks, headers, heights and the chain's own records.
    Default,
    /// Unspent transparent outputs.
    Utxo,
    /// Unspent anonymous outputs.
    Anonymous,
    /// Key images that were spent, with the height where they were.
    KeyImages,
    /// Coinbase transactions, with the height of their block.
    Coinbase,
    /// Outputs by the hash of their script.
    AddrIndex,
    /// Where a transaction is.
    TxIndex,
}

/// What the database holds.
pub type Db = Map<(Cf, Seq<u8>), Seq<u8>>;

/// One write: the value that a key gets, or that it loses its value.
pub struct Op {
    /// Where the key is.
    pub cf: Cf,
    /// The key.
    pub key: Vec<u8>,
    /// The new value, `None` for a deletion.
    pub value: Option<Vec<u8>>,
}

/// What a write says.
pub struct OpView {
    pub cf: Cf,
    pub key: Seq<u8>,
    pub value: Option<Seq<u8>>,
}

impl View for Op {
    type V = OpView;

    open spec fn view(&self) -> OpView {
        OpView { cf: self.cf, key: self.key@, value: crate::tx::opt_view(self.value) }
    }
}

/// What a list of writes says.
pub open spec fn ops_view(v: Seq<Op>) -> Seq<OpView> {
    v.map_values(|o: Op| o@)
}

/// The write that puts `value` at `key`.
pub open spec fn put(cf: Cf, key: Seq<u8>, value: Seq<u8>) -> OpView {
    OpView { cf, key, value: Some(value) }
}

/// The write that deletes `key`.
pub open spec fn del(cf: Cf, key: Seq<u8>) -> OpView {
    OpView { cf, key, value: None }
}

/// The value at a key.
pub open spec fn read(db: Db, cf: Cf, key: Seq<u8>) -> Option<Seq<u8>> {
    if db.dom().contains((cf, key)) {
        Some(db[(cf, key)])
    } else {
        None
    }
}

/// The database after one write.
pub open spec fn write(db: Db, op: OpView) -> Db {
    match op.value {
        Some(v) => db.insert((op.cf, op.key), v),
        None => db.remove((op.cf, op.key)),
    }
}

/// The database after a list of writes, in their order.
pub open spec fn write_all(db: Db, ops: Seq<OpView>) -> Db
    decreases ops.len(),
{
    if ops.len() == 0 {
        db
    } else {
        write(write_all(db, ops.drop_last()), ops.last())
    }
}

/// Whether a list of writes touches a key.
pub open spec fn touches(ops: Seq<OpView>, cf: Cf, key: Seq<u8>) -> bool {
    exists|i: int| 0 <= i < ops.len() && (#[trigger] ops[i]).cf == cf && ops[i].key == key
}

/// Writing two lists one after the other is writing them joined.
pub proof fn lemma_write_append(db: Db, a: Seq<OpView>, b: Seq<OpView>)
    ensures
        write_all(db, a + b) == write_all(write_all(db, a), b),
    decreases b.len(),
{
    if b.len() == 0 {
        assert(a + b =~= a);
    } else {
        lemma_write_append(db, a, b.drop_last());
        assert((a + b).drop_last() =~= a + b.drop_last());
    }
}

/// A key that the writes do not touch keeps its value.
pub proof fn lemma_untouched(db: Db, ops: Seq<OpView>, cf: Cf, key: Seq<u8>)
    requires
        !touches(ops, cf, key),
    ensures
        read(write_all(db, ops), cf, key) == read(db, cf, key),
    decreases ops.len(),
{
    if ops.len() > 0 {
        let init = ops.drop_last();
        assert(!touches(init, cf, key)) by {
            if touches(init, cf, key) {
                let i = choose|i: int|
                    0 <= i < init.len() && (#[trigger] init[i]).cf == cf && init[i].key == key;
                assert(ops[i].cf == cf && ops[i].key == key);
            }
        }
        lemma_untouched(db, init, cf, key);
        let last = ops[ops.len() - 1];
        assert(last.cf != cf || last.key != key);
    }
}

/// The last write to a key decides its value.
pub proof fn lemma_last_write(db: Db, ops: Seq<OpView>, n: int)
    requires
        0 <= n < ops.len(),
        forall|j: int|
            n < j < ops.len() ==> (#[trigger] ops[j]).cf != ops[n].cf || ops[j].key != ops[n].key,
    ensures
        read(write_all(db, ops), ops[n].cf, ops[n].key) == ops[n].value,
    decreases ops.len(),
{
    if n < ops.len() - 1 {
        lemma_last_write(db, ops.drop_last(), n);
        assert(ops[ops.len() - 1].cf != ops[n].cf || ops[ops.len() - 1].key != ops[n].key);
    }
}

/// Whether every write in `undo` gives its key the value that it has in `db`.
pub open spec fn restores(undo: Seq<OpView>, db: Db) -> bool {
    forall|i: int|
        0 <= i < undo.len() ==> (#[trigger] undo[i]).value == read(db, undo[i].cf, undo[i].key)
}

/// The list in the other order.
pub open spec fn reversed(ops: Seq<OpView>) -> Seq<OpView> {
    ops.reverse()
}

/// Writes can be taken back: where `undo` holds, for every key that `ops`
/// touches, a write of the value that the key had, making the writes of `undo`
/// in the opposite order after those of `ops` gives the database back as it
/// was.
pub proof fn law_rollback_restores(db: Db, ops: Seq<OpView>, undo: Seq<OpView>)
    requires
        restores(undo, db),
        forall|cf: Cf, key: Seq<u8>| #[trigger] touches(ops, cf, key) ==> touches(undo, cf, key),
    ensures
        write_all(write_all(db, ops), reversed(undo)) == db,
{
    let after = write_all(db, ops);
    let back = reversed(undo);
    let end = write_all(after, back);
    assert forall|cf: Cf, key: Seq<u8>|
        #[trigger] read(end, cf, key) == read(db, cf, key) by {
        lemma_rollback_at(db, ops, undo, cf, key);
    }
    assert forall|p: (Cf, Seq<u8>)|
        #![trigger end.dom().contains(p)]
        end.dom().contains(p) == db.dom().contains(p) && (db.dom().contains(p) ==> end[p]
            == db[p]) by {
        assert(read(end, p.0, p.1) == read(db, p.0, p.1));
    }
    assert(end =~= db);
}

/// One key's part of [`law_rollback_restores`]: it suffices that `undo` holds
/// the key if `ops` touches it.
pub proof fn lemma_rollback_at(db: Db, ops: Seq<OpView>, undo: Seq<OpView>, cf: Cf, key: Seq<u8>)
    requires
        restores(undo, db),
        touches(ops, cf, key) ==> touches(undo, cf, key),
    ensures
        read(write_all(write_all(db, ops), reversed(undo)), cf, key) == read(db, cf, key),
{
    let after = write_all(db, ops);
    let back = reversed(undo);
    if touches(undo, cf, key) {
        let i = choose|i: int|
            0 <= i < undo.len() && (#[trigger] undo[i]).cf == cf && undo[i].key == key;
        assert(back[undo.len() - 1 - i] == undo[i]);
        let n = lemma_some_last(back, cf, key);
        lemma_last_write(after, back, n);
        assert(back[n] == undo[undo.len() - 1 - n]);
    } else {
        assert(!touches(back, cf, key)) by {
            if touches(back, cf, key) {
                let i = choose|i: int|
                    0 <= i < back.len() && (#[trigger] back[i]).cf == cf && back[i].key == key;
                assert(back[i] == undo[undo.len() - 1 - i]);
            }
        }
        lemma_untouched(after, back, cf, key);
        lemma_untouched(db, ops, cf, key);
    }
}

/// The last write to a key that is touched.
proof fn lemma_some_last(ops: Seq<OpView>, cf: Cf, key: Seq<u8>) -> (n: int)
    requires
        touches(ops, cf, key),
    ensures
        0 <= n < ops.len(),
        ops[n].cf == cf,
        ops[n].key == key,
        forall|j: int| n < j < ops.len() ==> (#[trigger] ops[j]).cf != cf || ops[j].key != key,
    decreases ops.len(),
{
    let last = ops.len() - 1;
    if ops[last].cf == cf && ops[last].key == key {
        last
    } else {
        let i = choose|i: int|
            0 <= i < ops.len() && (#[trigger] ops[i]).cf == cf && ops[i].key == key;
        let init = ops.drop_last();
        assert(init[i] == ops[i]);
        let n = lemma_some_last(init, cf, key);
        assert forall|j: int| n < j < ops.len() implies (#[trigger] ops[j]).cf != cf || ops[j].key
            != key by {
            if j < last {
                assert(init[j] == ops[j]);
            }
        }
        n
    }
}

impl Clone for Op {
    fn clone(&self) -> (r: Self)
        ensures
            r@ == self@,
    {
        Op {
            cf: self.cf,
            key: copy_bytes(self.key.as_slice()),
            value: crate::tx::copy_opt(&self.value),
        }
    }
}

/// A write that puts `value` at `key`.
pub fn put_op(cf: Cf, key: &[u8], value: &[u8]) -> (r: Op)
    ensures
        r@ == put(cf, key@, value@),
{
    Op { cf, key: copy_bytes(key), value: Some(copy_bytes(value)) }
}

/// A write that deletes `key`.
pub fn del_op(cf: Cf, key: &[u8]) -> (r: Op)
    ensures
        r@ == del(cf, key@),
{
    Op { cf, key: copy_bytes(key), value: None }
}

/// Adds a write at the end of a list.
pub fn push_op(v: &mut Vec<Op>, op: Op)
    ensures
        ops_view(final(v)@) == ops_view(old(v)@).push(op@),
{
    v.push(op);
    assert(ops_view(v@) =~= ops_view(old(v)@).push(op@));
}

/// Adds copies of writes at the end of a list.
pub fn append_ops(v: &mut Vec<Op>, more: &Vec<Op>)
    ensures
        ops_view(final(v)@) == ops_view(old(v)@) + ops_view(more@),
{
    let mut i: usize = 0;
    assert(ops_view(v@) =~= ops_view(old(v)@) + ops_view(more@).take(0));
    while i < more.len()
        invariant
            i <= more@.len(),
            ops_view(v@) == ops_view(old(v)@) + ops_view(more@).take(i as int),
        decreases more@.len() - i,
    {
        push_op(v, more[i].clone());
        assert(ops_view(v@) =~= ops_view(old(v)@) + ops_view(more@).take(i + 1));
        i += 1;
    }
    assert(ops_view(more@).take(i as int) =~= ops_view(more@));
}

/// The writes of a list in the opposite order.
pub fn reverse_ops(v: &Vec<Op>) -> (r: Vec<Op>)
    ensures
        ops_view(r@) == reversed(ops_view(v@)),
{
    let mut out: Vec<Op> = Vec::new();
    let mut i: usize = v.len();
    while i > 0
        invariant
            i <= v@.len(),
            out@.len() == v@.len() - i,
            forall|j: int| 0 <= j < out@.len() ==> (#[trigger] out@[j])@ == v@[v@.len() - 1 - j]@,
        decreases i,
    {
        i -= 1;
        out.push(v[i].clone());
    }
    assert(ops_view(out@) =~= reversed(ops_view(v@)));
    out
}

/// The database's contents at one moment, as the list of writes that made
/// them.
pub struct Snapshot {
    log: Vec<Op>,
}

impl View for Snapshot {
    type V = Db;

    closed spec fn view(&self) -> Db {
        write_all(Map::empty(), ops_view(self.log@))
    }
}

impl Snapshot {
    /// An empty database.
    pub fn new() -> (r: Self)
        ensures
            r@ == Map::<(Cf, Seq<u8>), Seq<u8>>::empty(),
    {
        let r = Snapshot { log: Vec::new() };
        assert(ops_view(r.log@) =~= Seq::<OpView>::empty());
        r
    }

    /// The value at a key.
    pub fn get(&self, cf: Cf, key: &[u8]) -> (r: Option<Vec<u8>>)
        ensures
            crate::tx::opt_view(r) == read(self@, cf, key@),
    {
        let ghost ops = ops_view(self.log@);
        let mut n: usize = self.log.len();
        while n > 0
            invariant
                n <= self.log@.len(),
                ops == ops_view(self.log@),
                forall|j: int|
                    n <= j < ops.len() ==> (#[trigger] ops[j]).cf != cf || ops[j].key != key@,
            decreases n,
        {
            n -= 1;
            let op = &self.log[n];
            assert(ops[n as int] == op@);
            if op.cf == cf && same_bytes(op.key.as_slice(), key) {
                proof {
                    lemma_last_write(Map::empty(), ops, n as int);
                }
                return crate::tx::copy_opt(&op.value);
            }
        }
        proof {
            lemma_untouched(Map::empty(), ops, cf, key@);
        }
        None
    }

    /// Makes one write.
    pub fn apply(&mut self, op: Op)
        ensures
            final(self)@ == write(old(self)@, op@),
    {
        let ghost before = ops_view(self.log@);
        push_op(&mut self.log, op);
        assert(before.push(op@).drop_last() =~= before);
    }

    /// Makes a list of writes, in their order.
    pub fn apply_all(&mut self, ops: &Vec<Op>)
        ensures
            final(self)@ == write_all(old(self)@, ops_view(ops@)),
    {
        let ghost before = ops_view(self.log@);
        append_ops(&mut self.log, ops);
        proof {
            lemma_write_append(Map::empty(), before, ops_view(ops@));
        }
    }
}

} // verus!
