//! Mining: what a new block holds, and the search for its nonce.
use crate::big;
use crate::big::big_le;
use crate::bytes;
use crate::bytes::{append_bytes, copy_bytes, to_le};
use crate::chain::Chain;
use crate::codec;
use crate::codec::{serialize_header, serialize_header_base};
use crate::errors::{other, ChainError, Fault};
use crate::hash;
use crate::ledger;
use crate::ledger::calculate_next_bits;
use crate::mempool;
use crate::mempool::Mempool;
use crate::params;
use crate::params::{subsidy, GENESIS_TIMESTAMP, MAX_BLOCK_SIZE};
use crate::script;
use crate::script::{create_coinbase, make_coinbase, p2pkh_script};
use crate::secp;
use crate::secp::PublicKey;
use crate::store::Snapshot;
use crate::target;
use crate::target::{compact_to_target, u256_from_hash, GENESIS_BITS};
use crate::tx;
use crate::tx::{copy_txs, make_no_id, Block, BlockHeader, OutputMap, Transaction};
use num_bigint::BigUint;
use vstd::prelude::*;

verus! {

/// The least number of mining threads.
pub const MIN_THREADS: usize = 4;

/// The largest number of mining threads.
pub const MAX_THREADS: usize = 64;

/// By how many the number of mining threads changes at once.
pub const THREAD_STEP: usize = 8;

/// How often a chain that may not be written to is waited for.
pub const MAX_READ_ONLY_ATTEMPTS: u8 = 30;

/// How many nonces are tried between looking up.
pub const NONCE_CHUNK_SIZE: u64 = 1_000_000;

/// How many bytes of a block are kept free for its header and its coinbase.
pub const BLOCK_RESERVE: usize = 1000;

/// A number kept within bounds, the upper one first.
pub open spec fn within(x: usize, low: usize, high: usize) -> usize {
    if x > high {
        high
    } else if x < low {
        low
    } else {
        x
    }
}

/// How many threads mine at first: as many as there are cores, up to the limit
/// given, within the bounds.
pub fn initial_threads(cores: usize, max_threads: usize) -> (r: usize)
    ensures
        r == within(
            if cores <= max_threads {
                cores
            } else {
                max_threads
            },
            MIN_THREADS,
            MAX_THREADS,
        ),
{
    let n: usize = if cores <= max_threads {
        cores
    } else {
        max_threads
    };
    if n < MIN_THREADS {
        MIN_THREADS
    } else if n > MAX_THREADS {
        MAX_THREADS
    } else {
        n
    }
}

/// How many threads mine next, given how many do and how many tasks run: fewer
/// where there are more than nine tasks for ten threads, more where there are
/// less than six.
pub open spec fn next_threads(current: usize, tasks: usize) -> usize {
    if tasks * 10 > current * 9 {
        if current >= MIN_THREADS + THREAD_STEP {
            (current - THREAD_STEP) as usize
        } else {
            MIN_THREADS
        }
    } else if tasks * 10 < current * 6 {
        if current + THREAD_STEP > MAX_THREADS {
            MAX_THREADS
        } else {
            (current + THREAD_STEP) as usize
        }
    } else {
        current
    }
}

/// How many threads mine next.
pub fn adjust_threads(current: usize, tasks: usize) -> (r: usize)
    requires
        MIN_THREADS <= current <= MAX_THREADS,
    ensures
        MIN_THREADS <= r <= MAX_THREADS,
        r == next_threads(current, tasks),
{
    let load: u128 = tasks as u128 * 10;
    if load > current as u128 * 9 {
        let n: usize = current.saturating_sub(THREAD_STEP);
        if n < MIN_THREADS {
            MIN_THREADS
        } else {
            n
        }
    } else if load < current as u128 * 6 {
        if current + THREAD_STEP > MAX_THREADS {
            MAX_THREADS
        } else {
            current + THREAD_STEP
        }
    } else {
        current
    }
}

/// What the miner does next.
#[derive(Debug, Clone, Copy, PartialEq, Eq, Structural)]
pub enum Readiness {
    /// It mines.
    Mine,
    /// It waits for the chain.
    Wait,
    /// It gives up.
    GiveUp,
}

/// What the miner does next, and how often it has waited by then, given how
/// often it had and whether the chain may be written to.
pub open spec fn readiness(attempts: u8, read_only: bool) -> (Readiness, u8) {
    if !read_only {
        (Readiness::Mine, 0)
    } else if attempts >= MAX_READ_ONLY_ATTEMPTS {
        (Readiness::GiveUp, MAX_READ_ONLY_ATTEMPTS)
    } else {
        (Readiness::Wait, (attempts + 1) as u8)
    }
}

/// What the miner does next, and how often it has waited by then.
pub fn check_readiness(attempts: u8, read_only: bool) -> (r: (Readiness, u8))
    ensures
        r == readiness(attempts, read_only),
{
    if !read_only {
        (Readiness::Mine, 0)
    } else if attempts >= MAX_READ_ONLY_ATTEMPTS {
        (Readiness::GiveUp, MAX_READ_ONLY_ATTEMPTS)
    } else {
        (Readiness::Wait, attempts + 1)
    }
}

// ---------------------------------------------------------------------------
// New blocks
// ---------------------------------------------------------------------------

/// A block that is to be mined, without its time and its nonce.
pub struct Template {
    /// The hash of the block before.
    pub prev_hash: [u8; 32],
    /// The compact target.
    pub bits: u32,
    /// The transactions, the coinbase first.
    pub txs: Vec<Transaction>,
    /// The root of the tree over the transactions.
    pub merkle_root: [u8; 32],
}

/// Where the coinbase pays: to the key that the configuration names, where it
/// names one, and to the miner's otherwise.
pub open spec fn payee(miner: Seq<u8>, configured: Seq<char>) -> Seq<u8> {
    script::p2pkh_of(
        hash::hash160_of(
            match secp::pubkey_of_text(configured) {
                Some(k) => k,
                None => miner,
            },
        ),
    )
}

/// What the transactions pay as fees, as far as their outputs tell: nothing,
/// where what they spend is not known.
pub open spec fn known_fees(txs: Seq<tx::TxView>) -> Seq<u64> {
    txs.map_values(|t: tx::TxView| tx::fee_of(t, Map::empty()))
}

/// The coinbase of a block that is to be mined.
pub open spec fn mined_coinbase(
    height: usize,
    extra: Seq<u8>,
    value: u64,
    script: Seq<u8>,
) -> tx::TxView {
    tx::TxView {
        outputs: seq![
            tx::OutputView { value, script_pubkey: script, commitment: None },
        ],
        ..script::coinbase_of(height, extra, script)
    }
}

/// The transactions of a block that is to be mined.
pub open spec fn mined_txs(
    height: usize,
    extra: Seq<u8>,
    script: Seq<u8>,
    selected: Seq<tx::TxView>,
) -> Seq<tx::TxView> {
    seq![
        mined_coinbase(
            height,
            extra,
            (params::subsidy_at(height as nat) + tx::sum(known_fees(selected))) as u64,
            script,
        ),
    ] + selected
}

/// Without what they spend, no transaction is known to pay a fee.
proof fn lemma_no_known_fees(txs: Seq<tx::TxView>)
    ensures
        tx::sum(known_fees(txs)) == 0,
    decreases txs.len(),
{
    let fees = known_fees(txs);
    if txs.len() > 0 {
        lemma_no_known_fees(txs.drop_last());
        assert(fees.drop_last() =~= known_fees(txs.drop_last()));
        let t = txs.last();
        let values = tx::input_values(t.inputs, Map::empty());
        lemma_zero_sum(values);
        assert(fees.last() == tx::fee_of(t, Map::empty()));
    }
}

proof fn lemma_zero_sum(s: Seq<u64>)
    requires
        forall|i: int| 0 <= i < s.len() ==> #[trigger] s[i] == 0,
    ensures
        tx::sum(s) == 0,
    decreases s.len(),
{
    if s.len() > 0 {
        lemma_zero_sum(s.drop_last());
    }
}

/// A block that is to be mined at a height: its coinbase names the height and
/// `extra`, and pays the subsidy and the known fees; the selected transactions
/// follow.
pub fn build_template(
    prev_hash: [u8; 32],
    height: usize,
    bits: u32,
    extra: &[u8],
    pubkey: &PublicKey,
    configured: &str,
    selected: &Vec<Transaction>,
) -> (r: Template)
    ensures
        r.prev_hash == prev_hash,
        r.bits == bits,
        r.txs@.map_values(|t: Transaction| t@) == mined_txs(
            height,
            extra@,
            payee(pubkey@, configured@),
            selected@.map_values(|t: Transaction| t@),
        ),
        r.merkle_root@ == tx::merkle_root_of(tx::txids(r.txs@.map_values(|t: Transaction| t@))),
{
    let ghost sel = selected@.map_values(|t: Transaction| t@);
    let none = OutputMap::new();
    let mut fees: u64 = 0;
    let mut i: usize = 0;
    let ghost all = known_fees(sel);
    assert(all.take(0) =~= Seq::<u64>::empty());
    proof {
        lemma_no_known_fees(sel);
    }
    while i < selected.len()
        invariant
            i <= selected@.len(),
            none@ == Map::<tx::OutPoint, tx::OutputView>::empty(),
            sel == selected@.map_values(|t: Transaction| t@),
            all == known_fees(sel),
            tx::sum(all) == 0,
            fees == tx::sum(all.take(i as int)),
        decreases selected@.len() - i,
    {
        let fee: u64 = selected[i].fee(&none);
        proof {
            tx::lemma_sum_take(all, i + 1);
            assert(all.take(i + 1).drop_last() =~= all.take(i as int));
            assert(all[i as int] == fee);
        }
        fees = fees + fee;
        i += 1;
    }
    assert(all.take(all.len() as int) =~= all);
    proof {
        params::lemma_subsidy_bound(height as nat);
    }
    let value: u64 = subsidy(height) + fees;
    let script_pubkey = match PublicKey::from_text(configured) {
        Some(k) => p2pkh_script(&k),
        None => p2pkh_script(pubkey),
    };
    let coinbase = create_coinbase(height, extra, pubkey);
    let mut outputs: Vec<tx::TXOutput> = Vec::new();
    outputs.push(tx::TXOutput { value, script_pubkey, commitment: None });
    let coinbase = Transaction {
        version: coinbase.version,
        is_anonymous: coinbase.is_anonymous,
        inputs: coinbase.inputs,
        outputs,
        lock_time: coinbase.lock_time,
        range_proofs: coinbase.range_proofs,
    };
    let ghost script = payee(pubkey@, configured@);
    proof {
        assert(coinbase@.outputs =~= mined_coinbase(height, extra@, value, script).outputs);
        assert(coinbase@ == mined_coinbase(height, extra@, value, script));
    }
    let mut txs: Vec<Transaction> = Vec::new();
    txs.push(coinbase);
    let mut rest = copy_txs(selected);
    let ghost rest_view = rest@.map_values(|t: Transaction| t@);
    txs.append(&mut rest);
    proof {
        let view = txs@.map_values(|t: Transaction| t@);
        let goal = mined_txs(height, extra@, script, sel);
        assert(view.len() == goal.len());
        assert forall|j: int| 0 <= j < view.len() implies view[j] == goal[j] by {
            if j > 0 {
                assert(view[j] == rest_view[j - 1]);
            }
        }
        assert(view =~= goal);
    }
    let merkle_root = Block::compute_merkle_root(txs.as_slice());
    Template { prev_hash, bits, txs, merkle_root }
}

/// The block that is to be mined after the best one, filled from the pool as far
/// as its size allows.
pub fn next_template(
    chain: &Chain,
    db: &Snapshot,
    pool: &Mempool,
    extra: &[u8],
    pubkey: &PublicKey,
    configured: &str,
) -> (r: Result<Template, ChainError>)
    requires
        pool.wf(),
        chain@.best_height < usize::MAX,
        ledger::bits_computable(db@, (chain@.best_height + 1) as usize),
    ensures
        ({
            let height = (chain@.best_height + 1) as usize;
            match r {
                Ok(t) => {
                    &&& ledger::next_bits(db@, height) == Ok::<_, Fault>(t.bits)
                    &&& t.prev_hash@ == chain@.best_tip
                    &&& exists|rates: Seq<u128>| #[trigger]
                        mempool::lists_rates(pool@, rates) && t.txs@.map_values(
                            |t: Transaction| t@,
                        ) == mined_txs(
                            height,
                            extra@,
                            payee(pubkey@, configured@),
                            mempool::chosen(
                                pool@,
                                (MAX_BLOCK_SIZE - BLOCK_RESERVE) as nat,
                                rates,
                                rates.len(),
                            ).txs,
                        )
                    &&& t.merkle_root@ == tx::merkle_root_of(
                        tx::txids(t.txs@.map_values(|t: Transaction| t@)),
                    )
                },
                Err(e) => ledger::next_bits(db@, height) == Err::<u32, _>(e@),
            }
        }),
{
    let (prev_hash, best) = chain.best();
    let height: usize = best + 1;
    let bits: u32 = match calculate_next_bits(db, height) {
        Ok(b) => b,
        Err(e) => {
            return Err(e);
        },
    };
    let selected = pool.select_txs(MAX_BLOCK_SIZE - BLOCK_RESERVE);
    let t = build_template(prev_hash, height, bits, extra, pubkey, configured, &selected);
    proof {
        let rates = choose|rates: Seq<u128>| #[trigger]
            mempool::lists_rates(pool@, rates) && selected@.map_values(|t: Transaction| t@)
                == mempool::chosen(
                pool@,
                (MAX_BLOCK_SIZE - BLOCK_RESERVE) as nat,
                rates,
                rates.len(),
            ).txs;
        assert(mempool::lists_rates(pool@, rates));
    }
    Ok(t)
}

impl Template {
    /// The header with a time and a nonce.
    pub open spec fn header_of(&self, timestamp: u32, nonce: u64) -> BlockHeader {
        BlockHeader {
            version: 1,
            prev_hash: self.prev_hash,
            merkle_root: self.merkle_root,
            timestamp,
            bits: self.bits,
            nonce,
        }
    }

    /// The bytes of the header up to its nonce.
    pub fn header_base(&self, timestamp: u32) -> (r: Vec<u8>)
        ensures
            r@ == codec::enc_header_base(
                1,
                self.prev_hash@,
                self.merkle_root@,
                timestamp,
                self.bits,
            ),
    {
        serialize_header_base(
            &BlockHeader {
                version: 1,
                prev_hash: self.prev_hash,
                merkle_root: self.merkle_root,
                timestamp,
                bits: self.bits,
                nonce: 0,
            },
        )
    }

    /// The block with a time and a nonce.
    pub fn finish(self, timestamp: u32, nonce: u64) -> (r: Block)
        ensures
            r@.header == self.header_of(timestamp, nonce),
            r@.txs == self.txs@.map_values(|t: Transaction| t@),
    {
        Block {
            header: BlockHeader {
                version: 1,
                prev_hash: self.prev_hash,
                merkle_root: self.merkle_root,
                timestamp,
                bits: self.bits,
                nonce,
            },
            txs: self.txs,
        }
    }
}

/// What is hashed for a nonce: the bytes of the header up to the nonce, and the
/// nonce, its least significant byte first.
pub fn nonce_input(base: &[u8], nonce: u64) -> (r: Vec<u8>)
    ensures
        r@ == base@ + codec::enc_u64(nonce),
{
    let mut input = copy_bytes(base);
    let n = to_le(nonce as u128, 8);
    append_bytes(&mut input, n.as_slice());
    input
}

/// What is hashed for a nonce is the header with that nonce.
pub proof fn law_nonce_input_is_header(t: Template, timestamp: u32, nonce: u64)
    ensures
        codec::enc_header_base(1, t.prev_hash@, t.merkle_root@, timestamp, t.bits)
            + codec::enc_u64(nonce) == codec::enc_header(t.header_of(timestamp, nonce)),
{
}

/// Whether a hash meets a target.
pub fn meets_target(hash: &[u8; 32], goal: &BigUint) -> (r: bool)
    ensures
        r == (bytes::be_value(hash@) <= big::big(*goal)),
{
    big_le(&u256_from_hash(*hash), goal)
}

/// The nonces after those that were tried: the search goes on from there, and
/// from the start again after the last.
pub fn next_chunk(start: u64) -> (r: u64)
    ensures
        r == (start + NONCE_CHUNK_SIZE) % 0x1_0000_0000_0000_0000,
{
    if start > u64::MAX - NONCE_CHUNK_SIZE {
        NONCE_CHUNK_SIZE - (u64::MAX - start) - 1
    } else {
        start + NONCE_CHUNK_SIZE
    }
}

/// What is to be done with a block that was found.
#[derive(Debug, Clone, Copy, PartialEq, Eq, Structural)]
pub enum Find {
    /// It is offered to the chain.
    Offer,
    /// Every peer is told of it.
    Announce,
    /// Nothing.
    Drop,
}

/// What is to be done with a block that was found, given the best block when the
/// search began, and whether the block became the best one, once it was offered:
/// one that was mined on another block than the best one is not offered, and
/// only one that became the best one is told of.
pub fn found_block(prev_hash: &[u8; 32], best_tip: &[u8; 32], became_best: Option<bool>) -> (r: Find)
    ensures
        r == if prev_hash@ != best_tip@ {
            Find::Drop
        } else {
            match became_best {
                None => Find::Offer,
                Some(true) => Find::Announce,
                Some(false) => Find::Drop,
            }
        },
{
    proof {
        bytes::lemma_id_ext(*prev_hash, *best_tip);
    }
    if !bytes::same32(prev_hash, best_tip) {
        return Find::Drop;
    }
    match became_best {
        None => Find::Offer,
        Some(true) => Find::Announce,
        Some(false) => Find::Drop,
    }
}

// ---------------------------------------------------------------------------
// The first block
// ---------------------------------------------------------------------------

/// What the coinbase of the first block says.
pub const GENESIS_MESSAGE: &'static str =
    "Lyrion Network – Privacy by Design – Launched November 20, 2025";

/// The transaction of the first block.
pub open spec fn genesis_tx(pubkey: Seq<u8>) -> tx::TxView {
    tx::TxView {
        version: 1,
        is_anonymous: false,
        inputs: seq![
            tx::InputView {
                txid: tx::no_id(),
                vout: u32::MAX,
                script_sig: vstd::utf8::encode_utf8(GENESIS_MESSAGE@),
                sequence: u32::MAX,
            },
        ],
        outputs: seq![
            tx::OutputView {
                value: params::subsidy_at(0) as u64,
                script_pubkey: script::p2pkh_of(hash::hash160_of(pubkey)),
                commitment: None,
            },
        ],
        lock_time: 0,
        range_proofs: Seq::empty(),
    }
}

/// What the search for the first block has come to.
#[derive(Debug, Clone, Copy, PartialEq, Eq, Structural)]
pub enum Search {
    /// The nonce was found.
    Found,
    /// The next nonce is to be tried.
    Continue,
    /// There is no nonce left.
    Exhausted,
}

/// The search for the nonce of the first block.
pub struct GenesisSearch {
    block: Block,
    goal: BigUint,
    stage: Search,
    hashes: Ghost<Seq<Seq<u8>>>,
}

impl GenesisSearch {
    /// Whether the target is that of the block, a hash was given for each nonce
    /// up to the one that is tried, and the search goes on until one of them
    /// meets the target or no nonce is left.
    pub closed spec fn wf(&self) -> bool {
        let bits = self.block.header.bits;
        let nonce = self.block.header.nonce;
        let tried = self.hashes@;
        &&& big::big(self.goal) == target::target_of(bits)
        &&& tried.len() == if self.stage == Search::Continue {
            nonce as int
        } else {
            nonce + 1
        }
        &&& forall|n: int| 0 <= n < nonce ==> !target::meets(#[trigger] tried[n], bits)
        &&& self.stage == Search::Found ==> target::meets(tried[nonce as int], bits)
        &&& self.stage == Search::Exhausted ==> nonce == u64::MAX && !target::meets(
            tried[nonce as int],
            bits,
        )
    }

    /// The block with the nonce that is tried.
    pub closed spec fn candidate(&self) -> tx::BlockView {
        self.block@
    }

    /// What the search has come to.
    pub closed spec fn stage(&self) -> Search {
        self.stage
    }

    /// The hashes that were given, that of each nonce at its place.
    pub closed spec fn tried(&self) -> Seq<Seq<u8>> {
        self.hashes@
    }

    /// The search for a first block that pays to a public key's hash, before
    /// the first nonce is tried.
    pub fn start(pubkey: &PublicKey) -> (r: Self)
        ensures
            r.wf(),
            r.candidate().txs == seq![genesis_tx(pubkey@)],
            r.candidate().header.version == 1,
            r.candidate().header.prev_hash@ == tx::zero_id(),
            r.candidate().header.merkle_root@ == tx::merkle_root_of(
                tx::txids(r.candidate().txs),
            ),
            r.candidate().header.timestamp == GENESIS_TIMESTAMP,
            r.candidate().header.bits == GENESIS_BITS,
            r.candidate().header.nonce == 0,
            r.stage() == Search::Continue,
            r.tried() == Seq::<Seq<u8>>::empty(),
    {
        let script_sig = copy_bytes(GENESIS_MESSAGE.as_bytes());
        let coinbase = make_coinbase(script_sig, subsidy(0), p2pkh_script(pubkey));
        let mut txs: Vec<Transaction> = Vec::new();
        txs.push(coinbase);
        let merkle_root = Block::compute_merkle_root(txs.as_slice());
        let header = BlockHeader {
            version: 1,
            prev_hash: make_no_id(),
            merkle_root,
            timestamp: GENESIS_TIMESTAMP,
            bits: GENESIS_BITS,
            nonce: 0,
        };
        assert(txs@.map_values(|t: Transaction| t@) =~= seq![genesis_tx(pubkey@)]);
        let block = Block { header, txs };
        assert(target::bits_accepted(GENESIS_BITS));
        let goal = match compact_to_target(GENESIS_BITS) {
            Ok(t) => t,
            Err(_) => crate::big::big_from(0),
        };
        GenesisSearch { block, goal, stage: Search::Continue, hashes: Ghost(Seq::empty()) }
    }

    /// The bytes whose hash is to be taken next.
    pub fn input(&self) -> (r: Vec<u8>)
        ensures
            r@ == codec::enc_header(self.candidate().header),
    {
        serialize_header(&self.block.header)
    }

    /// Takes the hash of the bytes: whether it meets the target. Where it does
    /// not, the next nonce is tried, if there is one. A search that has ended
    /// stays as it is.
    pub fn submit(&mut self, hash: &[u8; 32]) -> (r: Search)
        requires
            old(self).wf(),
        ensures
            final(self).wf(),
            r == final(self).stage(),
            old(self).stage() != Search::Continue ==> *final(self) == *old(self),
            old(self).stage() == Search::Continue ==> {
                &&& final(self).tried() == old(self).tried().push(hash@)
                &&& r == if target::meets(hash@, old(self).candidate().header.bits) {
                    Search::Found
                } else if old(self).candidate().header.nonce == u64::MAX {
                    Search::Exhausted
                } else {
                    Search::Continue
                }
                &&& final(self).candidate() == if r == Search::Continue {
                    (tx::BlockView {
                        header: BlockHeader {
                            nonce: (old(self).candidate().header.nonce + 1) as u64,
                            ..old(self).candidate().header
                        },
                        ..old(self).candidate()
                    })
                } else {
                    old(self).candidate()
                }
            },
    {
        if self.stage != Search::Continue {
            return self.stage;
        }
        self.hashes = Ghost(self.hashes@.push(hash@));
        if meets_target(hash, &self.goal) {
            self.stage = Search::Found;
            return Search::Found;
        }
        if self.block.header.nonce == u64::MAX {
            self.stage = Search::Exhausted;
            return Search::Exhausted;
        }
        let h = self.block.header;
        self.block.header = BlockHeader {
            version: h.version,
            prev_hash: h.prev_hash,
            merkle_root: h.merkle_root,
            timestamp: h.timestamp,
            bits: h.bits,
            nonce: h.nonce + 1,
        };
        Search::Continue
    }
}

/// The first block that a search has found.
pub fn create_genesis_block(search: GenesisSearch) -> (r: Result<Block, ChainError>)
    ensures
        match r {
            Ok(b) => search.stage() == Search::Found && b@ == search.candidate(),
            Err(e) => search.stage() != Search::Found && e@ == Fault::Other(
                "Impossible to mine genesis – increase bits"@,
            ),
        },
{
    if search.stage == Search::Found {
        Ok(search.block)
    } else {
        Err(other("Impossible to mine genesis – increase bits"))
    }
}

/// A search that has found its block has it at the first nonce whose hash meets
/// the target.
pub proof fn law_first_block_meets_target(search: GenesisSearch)
    requires
        search.wf(),
        search.stage() == Search::Found,
    ensures
        ({
            let h = search.candidate().header;
            &&& search.tried().len() == h.nonce + 1
            &&& target::meets(search.tried()[h.nonce as int], h.bits)
            &&& forall|n: int|
                0 <= n < h.nonce ==> !target::meets(#[trigger] search.tried()[n], h.bits)
        }),
{
}

/// A search that has given up was given a hash for every nonce, and none of
/// them meets the target.
pub proof fn law_exhausted_search_tried_all(search: GenesisSearch)
    requires
        search.wf(),
        search.stage() == Search::Exhausted,
    ensures
        search.tried().len() == 0x1_0000_0000_0000_0000,
        forall|n: int|
            0 <= n < search.tried().len() ==> !target::meets(
                #[trigger] search.tried()[n],
                search.candidate().header.bits,
            ),
{
}

/// The transactions of a block that is to be mined are its coinbase, which has
/// one input that names nothing and one output that pays the subsidy of the
/// height to the script, and the selected ones as they are.
pub proof fn law_mined_block_pays_subsidy(
    height: usize,
    extra: Seq<u8>,
    script: Seq<u8>,
    selected: Seq<tx::TxView>,
)
    ensures
        ({
            let txs = mined_txs(height, extra, script, selected);
            &&& txs.len() == selected.len() + 1
            &&& txs.skip(1) == selected
            &&& tx::coinbase(txs[0])
            &&& txs[0].outputs.len() == 1
            &&& txs[0].outputs[0].value == params::subsidy_at(height as nat)
            &&& txs[0].outputs[0].script_pubkey == script
            &&& txs[0].outputs[0].commitment is None
            &&& txs[0].inputs[0].script_sig.len() == 8 + extra.len()
            &&& crate::bytes::le_value(txs[0].inputs[0].script_sig.take(8)) == height
        }),
{
    let txs = mined_txs(height, extra, script, selected);
    lemma_no_known_fees(selected);
    params::lemma_subsidy_bound(height as nat);
    script::law_coinbase_is_coinbase(height, extra, script);
    script::law_coinbase_tells_height(height, extra, script);
    assert(txs.skip(1) =~= selected);
}

/// Between 4 and 64 threads mine. Where more than nine tasks run for ten
/// threads, eight threads less mine next, where fewer than six run, eight more,
/// as far as the bounds allow; otherwise as many as before.
pub proof fn law_threads_follow_load(current: usize, tasks: usize)
    requires
        4 <= current <= 64,
    ensures
        ({
            let n = next_threads(current, tasks);
            &&& 4 <= n <= 64
            &&& 10 * tasks > 9 * current ==> n == current - 8 || (n == 4 && current < 12)
            &&& 10 * tasks < 6 * current ==> n == current + 8 || (n == 64 && current > 56)
            &&& 6 * current <= 10 * tasks <= 9 * current ==> n == current
        }),
{
}

/// The miner mines whenever the chain may be written to; it waits for a chain
/// that may not be, 30 times at most, and gives up then.
pub proof fn law_miner_waits(attempts: u8, read_only: bool)
    ensures
        readiness(attempts, false) == (Readiness::Mine, 0u8),
        attempts < 30 ==> readiness(attempts, true) == (Readiness::Wait, (attempts + 1) as u8),
        attempts >= 30 ==> readiness(attempts, true).0 == Readiness::GiveUp,
{
}

} // verus!
