//! Reading the chain out of the database, and the rules that look back along
//! it.
use crate::bytes;
use crate::bytes::{from_be, from_le, read32};
use crate::codec;
use crate::codec::{deserialize_block, deserialize_header, deserialize_output};
use crate::errors;
use crate::errors::{other, ChainError, Fault};
use crate::keys;
use crate::keys::{
    make_best_height_key, make_block_key, make_header_key, make_height_key, make_issued_key,
    make_supply_key, make_tip_key,
};
use crate::params;
use crate::params::{subsidy, DIFFICULTY_ADJUST_INTERVAL};
use crate::store;
use crate::store::{Cf, Snapshot};
use crate::target;
use crate::target::retarget;
use crate::tx;
use crate::tx::{Block, BlockHeader};
use vstd::prelude::*;

verus! {

// ---------------------------------------------------------------------------
// Blocks and headers
// ---------------------------------------------------------------------------

/// The block at a height.
#[verifier::opaque]
pub open spec fn block_at(db: store::Db, height: usize) -> Result<tx::BlockView, Fault> {
    match store::read(db, Cf::Default, keys::height_key(height)) {
        None => Err(Fault::Other("Missing hash"@)),
        Some(h) => match store::read(db, Cf::Default, keys::block_key(h)) {
            None => Err(Fault::Other("Missing block"@)),
            Some(b) => match codec::read_block(b) {
                None => Err(Fault::Other("Deserialize block failed"@)),
                Some(k) => Ok(k),
            },
        },
    }
}

/// The header at a height: it has a record of its own, or is that of the
/// block.
#[verifier::opaque]
pub open spec fn header_at(db: store::Db, height: usize) -> Result<BlockHeader, Fault> {
    match store::read(db, Cf::Default, keys::header_key(height)) {
        Some(b) => match codec::read_header(b) {
            Some(h) => Ok(h),
            None => Err(Fault::Other("Deserialize header failed"@)),
        },
        None => match block_at(db, height) {
            Ok(b) => Ok(b.header),
            Err(e) => Err(e),
        },
    }
}

/// The block at a height.
pub fn load_block_by_height(db: &Snapshot, height: usize) -> (r: Result<Block, ChainError>)
    ensures
        match r {
            Ok(b) => block_at(db@, height) == Ok::<_, Fault>(b@),
            Err(e) => block_at(db@, height) == Err::<tx::BlockView, _>(e@),
        },
{
    proof {
        reveal(block_at);
    }
    let key = make_height_key(height);
    let hash = match db.get(Cf::Default, key.as_slice()) {
        Some(h) => h,
        None => {
            return Err(other("Missing hash"));
        },
    };
    let block_key = make_block_key(hash.as_slice());
    let data = match db.get(Cf::Default, block_key.as_slice()) {
        Some(b) => b,
        None => {
            return Err(other("Missing block"));
        },
    };
    match deserialize_block(data.as_slice()) {
        Some(b) => Ok(b),
        None => Err(other("Deserialize block failed")),
    }
}

/// The header at a height.
pub fn load_header(db: &Snapshot, height: usize) -> (r: Result<BlockHeader, ChainError>)
    ensures
        match r {
            Ok(h) => header_at(db@, height) == Ok::<_, Fault>(h),
            Err(e) => header_at(db@, height) == Err::<BlockHeader, _>(e@),
        },
{
    proof {
        reveal(header_at);
    }
    let key = make_header_key(height);
    match db.get(Cf::Default, key.as_slice()) {
        Some(b) => match deserialize_header(b.as_slice()) {
            Some(h) => Ok(h),
            None => Err(other("Deserialize header failed")),
        },
        None => match load_block_by_height(db, height) {
            Ok(b) => Ok(b.header),
            Err(e) => Err(e),
        },
    }
}

/// The height of the best block, a number of four bytes.
pub open spec fn stored_height(db: store::Db) -> Result<nat, Fault> {
    match store::read(db, Cf::Default, keys::best_height_key()) {
        None => Err(Fault::Other("Missing height"@)),
        Some(b) => if b.len() == 4 {
            Ok(bytes::be_value(b))
        } else {
            Err(Fault::Other("Invalid height bytes"@))
        },
    }
}

/// The height of the best block.
pub fn load_current_height(db: &Snapshot) -> (r: Result<usize, ChainError>)
    ensures
        match r {
            Ok(h) => stored_height(db@) == Ok::<_, Fault>(h as nat),
            Err(e) => stored_height(db@) == Err::<nat, _>(e@),
        },
{
    let key = make_best_height_key();
    match db.get(Cf::Default, key.as_slice()) {
        None => Err(other("Missing height")),
        Some(b) => {
            if b.len() != 4 {
                return Err(other("Invalid height bytes"));
            }
            proof {
                bytes::lemma_be_write_read(b@);
                bytes::lemma_pow256_values();
            }
            Ok(from_be(b.as_slice()) as usize)
        },
    }
}

/// The hash of the best block.
pub open spec fn stored_tip(db: store::Db) -> Result<Seq<u8>, Fault> {
    match store::read(db, Cf::Default, keys::tip_key()) {
        None => Err(Fault::Other("Missing tip"@)),
        Some(b) => Ok(b),
    }
}

/// Whether a record, where it is there, is a hash of 32 bytes.
pub open spec fn is_id(rec: Option<Seq<u8>>) -> bool {
    rec is Some ==> rec->0.len() == 32
}

/// The hash of the best block.
pub fn load_current_tip(db: &Snapshot) -> (r: Result<[u8; 32], ChainError>)
    requires
        is_id(store::read(db@, Cf::Default, keys::tip_key())),
    ensures
        match r {
            Ok(h) => stored_tip(db@) == Ok::<_, Fault>(h@),
            Err(e) => stored_tip(db@) == Err::<Seq<u8>, _>(e@),
        },
{
    let key = make_tip_key();
    match db.get(Cf::Default, key.as_slice()) {
        None => Err(other("Missing tip")),
        Some(b) => {
            let h = read32(b.as_slice(), 0);
            assert(h@ =~= b@);
            Ok(h)
        },
    }
}

// ---------------------------------------------------------------------------
// The median of the last timestamps
// ---------------------------------------------------------------------------

/// The record of the block at a height, where there is one.
pub open spec fn block_record(db: store::Db, height: usize) -> Option<Seq<u8>> {
    match store::read(db, Cf::Default, keys::height_key(height)) {
        None => None,
        Some(h) => store::read(db, Cf::Default, keys::block_key(h)),
    }
}

/// The times of the `n` blocks up to a height, the last first. Blocks that are
/// not stored are passed over.
pub open spec fn times_back(db: store::Db, height: int, n: nat) -> Seq<u32>
    decreases n,
{
    if n == 0 {
        Seq::empty()
    } else {
        let before = times_back(db, height, (n - 1) as nat);
        match block_record(db, (height - (n - 1)) as usize) {
            None => before,
            Some(b) => before.push(codec::read_block(b)->0.header.timestamp),
        }
    }
}

/// How many blocks the median looks at: the block at the height and the ten
/// before it.
pub open spec fn window(height: usize) -> nat {
    if height < 10 {
        (height + 1) as nat
    } else {
        11
    }
}

/// Whether the blocks that the median looks at can be read where they are
/// stored.
#[verifier::opaque]
pub open spec fn times_readable(db: store::Db, height: usize) -> bool {
    forall|h: usize|
        height - window(height) < h <= height && #[trigger] block_record(db, h) is Some
            ==> codec::read_block(block_record(db, h)->0) is Some
}

/// The order of numbers.
pub open spec fn up() -> spec_fn(u32, u32) -> bool {
    |a: u32, b: u32| a <= b
}

/// The middle one of numbers in their order, the upper one of two; 0 where
/// there is none.
pub open spec fn median(times: Seq<u32>) -> u32 {
    if times.len() == 0 {
        0
    } else {
        times.sort_by(up())[(times.len() / 2) as int]
    }
}

/// The median of the times of the blocks up to a height.
#[verifier::opaque]
pub open spec fn median_at(db: store::Db, height: usize) -> u32 {
    median(times_back(db, height as int, window(height)))
}

/// Puts a number into a list that is in order.
fn insert_sorted(v: &mut Vec<u32>, x: u32)
    requires
        vstd::relations::sorted_by(old(v)@, up()),
    ensures
        vstd::relations::sorted_by(final(v)@, up()),
        final(v)@.to_multiset() == old(v)@.to_multiset().insert(x),
        final(v)@.len() == old(v)@.len() + 1,
{
    broadcast use vstd::seq_lib::group_to_multiset_ensures;

    let ghost s = v@;
    let mut i: usize = 0;
    while i < v.len() && v[i] < x
        invariant
            i <= v@.len(),
            v@ == s,
            forall|j: int| 0 <= j < i ==> v@[j] < x,
        decreases v@.len() - i,
    {
        i += 1;
    }
    v.insert(i, x);
    proof {
        assert(v@ == s.insert(i as int, x));
        let f = up();
        assert forall|a: int, b: int| 0 <= a < b < v@.len() implies #[trigger] f(v@[a], v@[b]) by {
            if b < i {
                assert(f(s[a], s[b]));
            } else if a < i && b > i {
                assert(f(s[a], s[b - 1]));
            } else if a > i {
                assert(f(s[a - 1], s[b - 1]));
            } else if a == i {
                if b - 1 > i {
                    assert(f(s[i as int], s[b - 1]));
                }
            }
        }
    }
}

proof fn lemma_up_total()
    ensures
        vstd::relations::total_ordering(up()),
{
}

/// The middle one of numbers in their order.
pub fn median_of(times: &Vec<u32>) -> (r: u32)
    ensures
        r == median(times@),
{
    broadcast use vstd::seq_lib::group_to_multiset_ensures;

    if times.len() == 0 {
        return 0;
    }
    let mut sorted: Vec<u32> = Vec::new();
    let mut i: usize = 0;
    assert(times@.take(0) =~= Seq::<u32>::empty());
    while i < times.len()
        invariant
            i <= times@.len(),
            sorted@.len() == i,
            vstd::relations::sorted_by(sorted@, up()),
            sorted@.to_multiset() == times@.take(i as int).to_multiset(),
        decreases times@.len() - i,
    {
        insert_sorted(&mut sorted, times[i]);
        proof {
            assert(times@.take(i + 1) =~= times@.take(i as int).push(times@[i as int]));
            vstd::seq_lib::to_multiset_build(times@.take(i as int), times@[i as int]);
        }
        i += 1;
    }
    proof {
        assert(times@.take(i as int) =~= times@);
        lemma_up_total();
        times@.lemma_sort_by_ensures(up());
        vstd::seq_lib::lemma_sorted_unique(sorted@, times@.sort_by(up()), up());
    }
    sorted[times.len() / 2]
}

/// The median of the times of the blocks up to a height.
pub fn get_median_timestamp(db: &Snapshot, height: usize) -> (r: u32)
    requires
        times_readable(db@, height),
    ensures
        r == median_at(db@, height),
{
    proof {
        reveal(times_readable);
        reveal(median_at);
    }
    let n: usize = if height < 10 {
        height + 1
    } else {
        11
    };
    let mut times: Vec<u32> = Vec::new();
    let mut i: usize = 0;
    assert(times@ =~= times_back(db@, height as int, 0));
    while i < n
        invariant
            i <= n,
            n == window(height),
            times_readable(db@, height),
            times@ == times_back(db@, height as int, i as nat),
        decreases n - i,
    {
        proof {
            reveal(times_readable);
        }
        let h: usize = height - i;
        assert(h == (height - ((i + 1) as nat - 1)) as usize);
        let key = make_height_key(h);
        match db.get(Cf::Default, key.as_slice()) {
            None => {
                assert(block_record(db@, h) is None);
            },
            Some(hash) => {
                let block_key = make_block_key(hash.as_slice());
                match db.get(Cf::Default, block_key.as_slice()) {
                    None => {
                        assert(block_record(db@, h) is None);
                    },
                    Some(data) => {
                        assert(block_record(db@, h) == Some(data@));
                        match deserialize_block(data.as_slice()) {
                            Some(b) => {
                                times.push(b.header.timestamp);
                            },
                            None => {},
                        }
                    },
                }
            },
        }
        i += 1;
    }
    median_of(&times)
}

/// Whether the blocks that the median looks at can be read.
pub fn are_times_readable(db: &Snapshot, height: usize) -> (r: bool)
    ensures
        r == times_readable(db@, height),
{
    proof {
        reveal(times_readable);
    }
    let n: usize = if height < 10 {
        height + 1
    } else {
        11
    };
    let mut i: usize = 0;
    while i < n
        invariant
            i <= n,
            n == window(height),
            forall|h: usize|
                height - i < h <= height && #[trigger] block_record(db@, h) is Some
                    ==> codec::read_block(block_record(db@, h)->0) is Some,
        decreases n - i,
    {
        proof {
            reveal(times_readable);
        }
        let h: usize = height - i;
        let key = make_height_key(h);
        match db.get(Cf::Default, key.as_slice()) {
            None => {
                assert(block_record(db@, h) is None);
            },
            Some(hash) => {
                let block_key = make_block_key(hash.as_slice());
                match db.get(Cf::Default, block_key.as_slice()) {
                    None => {
                        assert(block_record(db@, h) is None);
                    },
                    Some(data) => {
                        assert(block_record(db@, h) == Some(data@));
                        if deserialize_block(data.as_slice()).is_none() {
                            return false;
                        }
                    },
                }
            },
        }
        i += 1;
    }
    true
}

/// The median is one of the times, and as many of the others are no later as
/// are no earlier, up to one.
pub proof fn law_median_splits(times: Seq<u32>)
    requires
        times.len() > 0,
    ensures
        times.contains(median(times)),
        ({
            let s = times.sort_by(up());
            let m = (times.len() / 2) as int;
            &&& s.to_multiset() == times.to_multiset()
            &&& s.len() == times.len()
            &&& forall|i: int| 0 <= i <= m ==> #[trigger] s[i] <= median(times)
            &&& forall|i: int| m <= i < times.len() ==> #[trigger] s[i] >= median(times)
        }),
{
    broadcast use vstd::seq_lib::group_to_multiset_ensures;

    lemma_up_total();
    times.lemma_sort_by_ensures(up());
    let s = times.sort_by(up());
    assert(s.len() == s.to_multiset().len());
    assert(times.len() == times.to_multiset().len());
    let m = (times.len() / 2) as int;
    assert(s.contains(s[m]));
    let f = up();
    assert forall|i: int| 0 <= i <= m implies #[trigger] s[i] <= median(times) by {
        if i < m {
            assert(f(s[i], s[m]));
        }
    }
    assert forall|i: int| m <= i < times.len() implies #[trigger] s[i] >= median(times) by {
        if m < i {
            assert(f(s[m], s[i]));
        }
    }
}

// ---------------------------------------------------------------------------
// The next target
// ---------------------------------------------------------------------------

/// Whether the target of the block at a height can be computed: the headers
/// that it depends on are readable, and where the target changes the last of
/// them is no earlier than the first and the median can be taken.
pub open spec fn bits_computable(db: store::Db, height: usize) -> bool {
    &&& height >= 1
    &&& header_at(db, (height - 1) as usize) is Ok
    &&& height % DIFFICULTY_ADJUST_INTERVAL == 0 ==> {
        let start = header_at(db, (height - DIFFICULTY_ADJUST_INTERVAL) as usize);
        let end = header_at(db, (height - 1) as usize);
        &&& start is Ok
        &&& start->Ok_0.timestamp <= end->Ok_0.timestamp
        &&& times_readable(db, (height - 1) as usize)
    }
}

/// The compact target of the block at a height: it changes with every
/// interval, and is that of the block before otherwise.
pub open spec fn next_bits(db: store::Db, height: usize) -> Result<u32, Fault> {
    let end = header_at(db, (height - 1) as usize)->Ok_0;
    if height % DIFFICULTY_ADJUST_INTERVAL != 0 {
        Ok(end.bits)
    } else if !target::bits_accepted(end.bits) {
        Err(Fault::InvalidBlock("target exponent too large"@))
    } else {
        let start = header_at(db, (height - DIFFICULTY_ADJUST_INTERVAL) as usize)->Ok_0;
        Ok(
            target::compact_of(
                target::next_target(
                    target::target_of(end.bits),
                    start.timestamp,
                    end.timestamp,
                    median_at(db, (height - 1) as usize),
                ),
            ),
        )
    }
}

/// The compact target of the block at a height.
pub fn calculate_next_bits(db: &Snapshot, height: usize) -> (r: Result<u32, ChainError>)
    requires
        bits_computable(db@, height),
    ensures
        match r {
            Ok(b) => next_bits(db@, height) == Ok::<_, Fault>(b),
            Err(e) => next_bits(db@, height) == Err::<u32, _>(e@),
        },
{
    let end = match load_header(db, height - 1) {
        Ok(h) => h,
        Err(e) => {
            return Err(e);
        },
    };
    if height % DIFFICULTY_ADJUST_INTERVAL != 0 {
        return Ok(end.bits);
    }
    let start = match load_header(db, height - DIFFICULTY_ADJUST_INTERVAL) {
        Ok(h) => h,
        Err(e) => {
            return Err(e);
        },
    };
    let median_time = get_median_timestamp(db, height - 1);
    retarget(end.bits, start.timestamp, end.timestamp, median_time)
}

/// Whether the target of the block at a height can be computed.
pub fn are_bits_computable(db: &Snapshot, height: usize) -> (r: bool)
    ensures
        r == bits_computable(db@, height),
{
    if height < 1 {
        return false;
    }
    let end = match load_header(db, height - 1) {
        Ok(h) => h,
        Err(_) => {
            return false;
        },
    };
    if height % DIFFICULTY_ADJUST_INTERVAL != 0 {
        return true;
    }
    match load_header(db, height - DIFFICULTY_ADJUST_INTERVAL) {
        Ok(start) => start.timestamp <= end.timestamp && are_times_readable(db, height - 1),
        Err(_) => false,
    }
}

// ---------------------------------------------------------------------------
// The supply
// ---------------------------------------------------------------------------

/// The sum of the subsidies paid, a number of eight bytes, the least
/// significant first; 0 where nothing is recorded.
pub open spec fn stored_issue(db: store::Db) -> Result<u64, Fault> {
    match store::read(db, Cf::Default, keys::issued_key()) {
        None => Ok(0),
        Some(b) => if b.len() == 8 {
            Ok(bytes::le_value(b) as u64)
        } else {
            Err(Fault::Other("Invalid supply bytes"@))
        },
    }
}

/// The sum of the subsidies paid.
pub fn load_supply_from_db(db: &Snapshot) -> (r: Result<u64, ChainError>)
    ensures
        match r {
            Ok(s) => stored_issue(db@) == Ok::<_, Fault>(s),
            Err(e) => stored_issue(db@) == Err::<u64, _>(e@),
        },
{
    let key = make_issued_key();
    match db.get(Cf::Default, key.as_slice()) {
        None => Ok(0),
        Some(b) => {
            if b.len() != 8 {
                return Err(other("Invalid supply bytes"));
            }
            proof {
                bytes::lemma_le_write_read(b@);
                bytes::lemma_pow256_values();
            }
            Ok(from_le(b.as_slice()) as u64)
        },
    }
}

/// The amounts of stored outputs, 0 for one that is not readable.
pub open spec fn record_values(records: Seq<Vec<u8>>) -> Seq<u64> {
    records.map_values(
        |b: Vec<u8>|
            match codec::read_output(b@) {
                Some(o) => o.value,
                None => 0,
            },
    )
}

/// What is wrong with stored output `i`, where nothing is with those before
/// it.
pub open spec fn record_fault(records: Seq<Vec<u8>>, i: int) -> Option<Fault> {
    if codec::read_output(records[i]@) is None {
        Some(Fault::Other("Deserialize failed in supply validation"@))
    } else if tx::sum(record_values(records).take(i + 1)) > u64::MAX {
        Some(Fault::ValueOverflow)
    } else {
        None
    }
}

/// The sum of stored outputs, given in the order of their keys.
pub fn compute_cf_supply(records: &Vec<Vec<u8>>) -> (r: Result<u64, ChainError>)
    ensures
        ({
            let fault = errors::first_fault(
                |i: int| record_fault(records@, i),
                records@.len(),
            );
            match r {
                Ok(s) => fault is None && s == tx::sum(record_values(records@)),
                Err(e) => fault == Some(e@),
            }
        }),
{
    let ghost check = |i: int| record_fault(records@, i);
    let ghost all = record_values(records@);
    let mut acc: u64 = 0;
    let mut i: usize = 0;
    assert(all.take(0) =~= Seq::<u64>::empty());
    while i < records.len()
        invariant
            i <= records@.len(),
            check == (|i: int| record_fault(records@, i)),
            all == record_values(records@),
            errors::first_fault(check, i as nat) is None,
            acc == tx::sum(all.take(i as int)),
        decreases records@.len() - i,
    {
        let res: Result<u64, ChainError> = match deserialize_output(records[i].as_slice()) {
            None => Err(other("Deserialize failed in supply validation")),
            Some(o) => {
                proof {
                    assert(all.take(i + 1).drop_last() =~= all.take(i as int));
                    assert(all.take(i + 1).last() == o.value);
                }
                match acc.checked_add(o.value) {
                    Some(s) => Ok(s),
                    None => Err(ChainError::ValueOverflow),
                }
            },
        };
        match res {
            Ok(s) => {
                acc = s;
                assert(check(i as int) is None);
            },
            Err(e) => {
                proof {
                    assert(check(i as int) == Some(e@));
                    assert(errors::first_fault(check, (i + 1) as nat) == Some(e@));
                    errors::lemma_first_fault(check, (i + 1) as nat, records@.len());
                }
                return Err(e);
            },
        }
        i += 1;
    }
    assert(all.take(i as int) =~= all);
    Ok(acc)
}

proof fn lemma_issue_grows(a: nat, b: nat)
    requires
        a <= b,
    ensures
        params::issued_below(a) <= params::issued_below(b),
    decreases b,
{
    if a < b {
        lemma_issue_grows(a, (b - 1) as nat);
    }
}

/// The subsidies of the blocks up to a height, and the block at it, `None`
/// where the sum is no amount.
pub fn issued_up_to(height: usize) -> (r: Option<u64>)
    ensures
        r == if params::issued_below(height as nat + 1) <= u64::MAX {
            Some(params::issued_below(height as nat + 1) as u64)
        } else {
            None
        },
{
    let mut acc: u64 = 0;
    let mut h: usize = 0;
    loop
        invariant
            h <= height,
            acc == params::issued_below(h as nat),
        decreases height - h,
    {
        proof {
            lemma_issue_grows(h as nat + 1, height as nat + 1);
        }
        match acc.checked_add(subsidy(h)) {
            Some(s) => {
                acc = s;
            },
            None => {
                return None;
            },
        }
        if h == height {
            return Some(acc);
        }
        h += 1;
    }
}

/// Whether the stored outputs sum to the subsidies paid.
pub open spec fn supply_verdict(
    utxos: Seq<Vec<u8>>,
    anonymous: Seq<Vec<u8>>,
    best_height: usize,
    mismatch: Fault,
) -> Result<(), Fault> {
    match errors::first_fault(|i: int| record_fault(utxos, i), utxos.len()) {
        Some(e) => Err(e),
        None => match errors::first_fault(|i: int| record_fault(anonymous, i), anonymous.len()) {
            Some(e) => Err(e),
            None => {
                let issued = params::issued_below(best_height as nat + 1);
                if issued > u64::MAX {
                    Err(Fault::ValueOverflow)
                } else if tx::sum(record_values(utxos)) + tx::sum(record_values(anonymous))
                    != issued {
                    Err(mismatch)
                } else {
                    Ok(())
                }
            },
        },
    }
}

fn check_supply(
    utxos: &Vec<Vec<u8>>,
    anonymous: &Vec<Vec<u8>>,
    best_height: usize,
    mismatch: ChainError,
) -> (r: Result<(), ChainError>)
    ensures
        errors::verdict(r) == supply_verdict(utxos@, anonymous@, best_height, mismatch@),
{
    let utxo_supply: u64 = match compute_cf_supply(utxos) {
        Ok(s) => s,
        Err(e) => {
            return Err(e);
        },
    };
    let anon_supply: u64 = match compute_cf_supply(anonymous) {
        Ok(s) => s,
        Err(e) => {
            return Err(e);
        },
    };
    match issued_up_to(best_height) {
        None => Err(ChainError::ValueOverflow),
        Some(issued) => if utxo_supply as u128 + anon_supply as u128 != issued as u128 {
            Err(mismatch)
        } else {
            Ok(())
        },
    }
}

/// Whether the stored outputs, transparent and anonymous, sum to the subsidies
/// paid; a mismatch is an invalid block.
pub fn validate_state_full(
    utxos: &Vec<Vec<u8>>,
    anonymous: &Vec<Vec<u8>>,
    best_height: usize,
) -> (r: Result<(), ChainError>)
    ensures
        errors::verdict(r) == supply_verdict(
            utxos@,
            anonymous@,
            best_height,
            Fault::InvalidBlock("Supply mismatch"@),
        ),
{
    check_supply(utxos, anonymous, best_height, errors::invalid_block("Supply mismatch"))
}

/// Whether the stored outputs, transparent and anonymous, sum to the subsidies
/// paid.
pub fn validate_supply_full(
    utxos: &Vec<Vec<u8>>,
    anonymous: &Vec<Vec<u8>>,
    best_height: usize,
) -> (r: Result<(), ChainError>)
    ensures
        errors::verdict(r) == supply_verdict(
            utxos@,
            anonymous@,
            best_height,
            Fault::SupplyMismatch,
        ),
{
    check_supply(utxos, anonymous, best_height, ChainError::SupplyMismatch)
}

/// Whether the recorded sum of the unspent outputs is the one in memory. A
/// record that is missing is passed over.
pub open spec fn state_verdict(db: store::Db, supply: u64) -> Result<(), Fault> {
    match store::read(db, Cf::Default, keys::supply_key()) {
        None => Ok(()),
        Some(b) => if b.len() != 8 {
            Err(Fault::Other("Invalid supply bytes"@))
        } else if bytes::be_value(b) != supply {
            Err(Fault::SupplyMismatch)
        } else {
            Ok(())
        },
    }
}

/// Whether the recorded sum of the unspent outputs is the one in memory.
pub fn check_state(db: &Snapshot, supply: u64) -> (r: Result<(), ChainError>)
    ensures
        errors::verdict(r) == state_verdict(db@, supply),
{
    let key = make_supply_key();
    match db.get(Cf::Default, key.as_slice()) {
        None => Ok(()),
        Some(b) => {
            if b.len() != 8 {
                return Err(other("Invalid supply bytes"));
            }
            if from_be(b.as_slice()) != supply as u128 {
                Err(ChainError::SupplyMismatch)
            } else {
                Ok(())
            }
        },
    }
}

// ---------------------------------------------------------------------------
// What the rules that look back say of a stored chain
// ---------------------------------------------------------------------------

proof fn lemma_times_back(db: store::Db, height: usize, n: nat)
    requires
        n <= height + 1,
        forall|h: usize| height - n < h <= height ==> #[trigger] block_at(db, h) is Ok,
    ensures
        times_back(db, height as int, n) == Seq::new(
            n,
            |i: int| block_at(db, (height - i) as usize)->Ok_0.header.timestamp,
        ),
    decreases n,
{
    let want = Seq::new(
        n,
        |i: int| block_at(db, (height - i) as usize)->Ok_0.header.timestamp,
    );
    if n == 0 {
        assert(times_back(db, height as int, n) =~= want);
    } else {
        lemma_times_back(db, height, (n - 1) as nat);
        let h = (height - (n - 1)) as usize;
        assert(block_at(db, h) is Ok);
        reveal(block_at);
        assert(times_back(db, height as int, n) =~= want);
    }
}

/// The median is the middle one, in their order, of the times of the block at
/// the height and the ten before it, as far as there are ten; of two in the
/// middle the later.
pub proof fn law_median_of_eleven(db: store::Db, height: usize) -> (s: Seq<u32>)
    requires
        forall|h: usize| height - 11 < h <= height ==> #[trigger] block_at(db, h) is Ok,
    ensures
        ({
            let n: nat = if height < 10 {
                (height + 1) as nat
            } else {
                11
            };
            &&& s.len() == n
            &&& s.to_multiset() == Seq::new(
                n,
                |i: int| block_at(db, (height - i) as usize)->Ok_0.header.timestamp,
            ).to_multiset()
            &&& forall|i: int, j: int| 0 <= i <= j < n ==> #[trigger] s[i] <= #[trigger] s[j]
            &&& median_at(db, height) == s[(n / 2) as int]
        }),
{
    reveal(median_at);
    let n: nat = if height < 10 {
        (height + 1) as nat
    } else {
        11
    };
    lemma_times_back(db, height, n);
    let times = times_back(db, height as int, n);
    law_median_splits(times);
    let s = times.sort_by(up());
    lemma_up_total();
    times.lemma_sort_by_ensures(up());
    let f = up();
    assert forall|i: int, j: int| 0 <= i <= j < n implies #[trigger] s[i] <= #[trigger] s[j] by {
        if i < j {
            assert(f(s[i], s[j]));
        }
    }
    s
}

/// The target of a block is that of the block before it, but for every
/// 2016th: it takes the target of the block before, moved with the time from
/// the first to the last of the 2016 blocks before it.
pub proof fn law_bits_change_every_interval(
    db: store::Db,
    height: usize,
    start: BlockHeader,
    end: BlockHeader,
)
    requires
        height >= 1,
        header_at(db, (height - 1) as usize) == Ok::<BlockHeader, Fault>(end),
        height >= 2016 ==> header_at(db, (height - 2016) as usize) == Ok::<BlockHeader, Fault>(
            start,
        ),
        end.bits < 0x5100_0000,
    ensures
        next_bits(db, height) == Ok::<u32, Fault>(
            if height % 2016 == 0 {
                target::compact_of(
                    target::next_target(
                        target::target_of(end.bits),
                        start.timestamp,
                        end.timestamp,
                        median_at(db, (height - 1) as usize),
                    ),
                )
            } else {
                end.bits
            },
        ),
{
}

/// A block reads back from where it is stored: the height leads to its hash,
/// and the hash to the block; and the header of a height has a record of its
/// own, or is that of the block.
pub proof fn law_blocks_read_back(db: store::Db, height: usize, hash: Seq<u8>, b: tx::BlockView)
    requires
        store::read(db, Cf::Default, keys::height_key(height)) == Some(hash),
        store::read(db, Cf::Default, keys::block_key(hash)) == Some(codec::enc_block(b)),
        codec::enc_block(b).len() < bytes::pow256(8),
    ensures
        block_at(db, height) == Ok::<tx::BlockView, Fault>(b),
        store::read(db, Cf::Default, keys::header_key(height)) is None ==> header_at(db, height)
            == Ok::<BlockHeader, Fault>(b.header),
        store::read(db, Cf::Default, keys::header_key(height)) == Some(codec::enc_header(b.header))
            ==> header_at(db, height) == Ok::<BlockHeader, Fault>(b.header),
{
    reveal(block_at);
    reveal(header_at);
    codec::law_read_block(b, codec::enc_block(b));
    codec::law_read_header(b.header, codec::enc_header(b.header));
}

proof fn lemma_records_sum(records: Seq<Vec<u8>>, amounts: Seq<u64>)
    requires
        amounts.len() == records.len(),
        forall|i: int|
            0 <= i < records.len() ==> {
                let o = codec::read_output((#[trigger] records[i])@);
                o is Some && o->0.value == amounts[i]
            },
        tx::sum(amounts) <= u64::MAX,
    ensures
        errors::first_fault(|i: int| record_fault(records, i), records.len()) is None,
        tx::sum(record_values(records)) == tx::sum(amounts),
{
    let check = |i: int| record_fault(records, i);
    assert(record_values(records) =~= amounts);
    assert forall|i: int| 0 <= i < records.len() implies #[trigger] check(i) is None by {
        assert(codec::read_output(records[i]@) is Some);
        tx::lemma_sum_take(amounts, i + 1);
    }
    errors::lemma_no_fault(check, records.len());
}

/// The supply is in order exactly where the amounts of the stored outputs, the
/// transparent and the anonymous ones, come to the subsidies of all blocks up
/// to the best one.
pub proof fn law_supply_is_what_was_issued(
    utxos: Seq<Vec<u8>>,
    anonymous: Seq<Vec<u8>>,
    best_height: usize,
    mismatch: Fault,
    open: Seq<u64>,
    hidden: Seq<u64>,
)
    requires
        open.len() == utxos.len(),
        hidden.len() == anonymous.len(),
        forall|i: int|
            0 <= i < utxos.len() ==> {
                let o = codec::read_output((#[trigger] utxos[i])@);
                o is Some && o->0.value == open[i]
            },
        forall|i: int|
            0 <= i < anonymous.len() ==> {
                let o = codec::read_output((#[trigger] anonymous[i])@);
                o is Some && o->0.value == hidden[i]
            },
        tx::sum(open) <= u64::MAX,
        tx::sum(hidden) <= u64::MAX,
        params::issued_below(best_height as nat + 1) <= u64::MAX,
    ensures
        supply_verdict(utxos, anonymous, best_height, mismatch) == if tx::sum(open) + tx::sum(
            hidden,
        ) == params::issued_below(best_height as nat + 1) {
            Ok::<(), Fault>(())
        } else {
            Err(mismatch)
        },
{
    lemma_records_sum(utxos, open);
    lemma_records_sum(anonymous, hidden);
}

/// The recorded sum of the unspent outputs is in order exactly where it is the
/// one in memory, or there is none; and the sum of the subsidies is read as it
/// was written.
pub proof fn law_recorded_sums(db: store::Db, supply: u64, recorded: u64)
    ensures
        store::read(db, Cf::Default, keys::supply_key()) is None ==> state_verdict(db, supply)
            is Ok,
        store::read(db, Cf::Default, keys::supply_key()) == Some(
            bytes::be_bytes(recorded as nat, 8),
        ) ==> state_verdict(db, supply) == if recorded == supply {
            Ok::<(), Fault>(())
        } else {
            Err(Fault::SupplyMismatch)
        },
        store::read(db, Cf::Default, keys::issued_key()) is None ==> stored_issue(db) == Ok::<
            u64,
            Fault,
        >(0),
        store::read(db, Cf::Default, keys::issued_key()) == Some(
            bytes::le_bytes(recorded as nat, 8),
        ) ==> stored_issue(db) == Ok::<u64, Fault>(recorded),
{
    bytes::lemma_pow256_values();
    bytes::lemma_be_bytes_len(recorded as nat, 8);
    bytes::lemma_le_bytes_len(recorded as nat, 8);
    bytes::lemma_be_read_write(recorded as nat, 8);
    bytes::lemma_le_read_write(recorded as nat, 8);
}

} // verus!
