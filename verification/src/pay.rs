//! Payments: which outputs are spent, what fee is paid, and the signed
//! transaction.
use crate::address;
use crate::address::address_to_pubkey_hash;
use crate::errors::{other, ChainError, Fault};
use crate::hash;
use crate::hd;
use crate::hd::HARDENED;
use crate::index;
use crate::index::Row;
use crate::order;
use crate::order::order_desc;
use crate::script;
use crate::script::{p2pkh_script, p2pkh_script_from_pkh};
use crate::secp;
use crate::secp::sign_ecdsa;
use crate::store::Snapshot;
use crate::tx;
use crate::tx::{TXInput, TXOutput, Transaction};
use crate::wallet;
use crate::wallet::{Utxo, Wallet};
use vstd::prelude::*;

verus! {

/// The largest change that is not worth an output of its own.
pub const DUST: u64 = 1000;

/// How much more than the amount is collected before the fee is known.
pub const FEE_RESERVE: u64 = 100_000;

/// The size that is reckoned for the parts of a transaction around its inputs
/// and outputs.
pub const OVERHEAD_SIZE: u64 = 26;

/// The size that is reckoned for the signature of an input.
pub const SIGNATURE_SIZE: u64 = 106;

/// The size that is reckoned for the rest of an input.
pub const INPUT_SIZE: u64 = 4;

/// The size that is reckoned for an output.
pub const OUTPUT_SIZE: u64 = 34;

/// How often the fee is reckoned anew.
pub const FEE_ROUNDS: u64 = 20;

/// By how much the fee may differ from the one that is reckoned anew.
pub const FEE_TOLERANCE: u64 = 20;

// ---------------------------------------------------------------------------
// Which outputs are spent
// ---------------------------------------------------------------------------

/// The amounts of unspent outputs.
pub open spec fn amounts(s: Seq<wallet::UtxoView>) -> Seq<u64> {
    s.map_values(|u: wallet::UtxoView| u.value as u64)
}

/// Unspent outputs, the largest first.
pub open spec fn largest_first(s: Seq<wallet::UtxoView>) -> Seq<wallet::UtxoView> {
    let o = order::order_of(amounts(s));
    Seq::new(s.len(), |i: int| s[o[i]])
}

/// What unspent outputs come to.
pub open spec fn total(s: Seq<wallet::UtxoView>) -> nat
    decreases s.len(),
{
    if s.len() == 0 {
        0
    } else {
        total(s.drop_last()) + s.last().value
    }
}

/// How many outputs are spent, given how many are already and what these come
/// to: so many that the amount and the reserve are reached, or all.
pub open spec fn pick_count(s: Seq<wallet::UtxoView>, amount: nat, i: nat) -> nat
    decreases s.len() - i,
{
    if i >= s.len() {
        s.len()
    } else if total(s.take((i + 1) as int)) >= amount + FEE_RESERVE {
        i + 1
    } else {
        pick_count(s, amount, i + 1)
    }
}

/// The outputs that are spent for an amount.
pub open spec fn picked(s: Seq<wallet::UtxoView>, amount: nat) -> Seq<wallet::UtxoView> {
    let sorted = largest_first(s);
    sorted.take(pick_count(sorted, amount, 0) as int)
}

/// A copy of unspent outputs, the largest first.
fn sort_utxos(v: &Vec<Utxo>) -> (r: Vec<Utxo>)
    ensures
        wallet::utxos_view(r@) == largest_first(wallet::utxos_view(v@)),
{
    let ghost s = wallet::utxos_view(v@);
    let mut keys: Vec<u64> = Vec::new();
    let mut j: usize = 0;
    while j < v.len()
        invariant
            j <= v@.len(),
            keys@.len() == j,
            forall|k: int| 0 <= k < j ==> #[trigger] keys@[k] == v@[k].value,
        decreases v@.len() - j,
    {
        keys.push(v[j].value);
        j += 1;
    }
    assert(keys@ =~= amounts(s));
    let o = order_desc(&keys);
    let mut out: Vec<Utxo> = Vec::new();
    let mut k: usize = 0;
    while k < o.len()
        invariant
            k <= o@.len(),
            o@.len() == v@.len(),
            s == wallet::utxos_view(v@),
            order::places(o@) == order::order_of(amounts(s)),
            forall|m: int| 0 <= m < o@.len() ==> #[trigger] o@[m] < v@.len(),
            out@.len() == k,
            forall|m: int|
                0 <= m < k ==> (#[trigger] out@[m])@ == s[order::order_of(amounts(s))[m]],
        decreases o@.len() - k,
    {
        proof {
            assert(order::places(o@)[k as int] == o@[k as int]);
        }
        out.push(v[o[k]].clone());
        k += 1;
    }
    assert(wallet::utxos_view(out@) =~= largest_first(s));
    out
}

/// The outputs that are spent for an amount, and what they come to.
fn pick(v: &Vec<Utxo>, amount: u64) -> (r: (Vec<Utxo>, u128))
    ensures
        wallet::utxos_view(r.0@) == picked(wallet::utxos_view(v@), amount as nat),
        r.1 == total(wallet::utxos_view(r.0@)),
{
    let sorted = sort_utxos(v);
    let ghost s = wallet::utxos_view(sorted@);
    let mut out: Vec<Utxo> = Vec::new();
    let mut sum: u128 = 0;
    let mut i: usize = 0;
    proof {
        assert(s.take(0) =~= Seq::<wallet::UtxoView>::empty());
        assert(wallet::utxos_view(out@) =~= s.take(0));
    }
    while i < sorted.len()
        invariant
            i <= sorted@.len(),
            s == wallet::utxos_view(sorted@),
            wallet::utxos_view(out@) == s.take(i as int),
            sum == total(s.take(i as int)),
            sum <= i * 0xffff_ffff_ffff_ffff,
            pick_count(s, amount as nat, 0) == pick_count(s, amount as nat, i as nat),
            wallet::utxos_view(v@).len() == s.len(),
            s == largest_first(wallet::utxos_view(v@)),
        decreases sorted@.len() - i,
    {
        let u = sorted[i].clone();
        let value: u64 = u.value;
        let ghost before = wallet::utxos_view(out@);
        out.push(u);
        proof {
            assert(s[i as int] == u@);
            assert(wallet::utxos_view(out@) =~= before.push(u@));
            assert(s.take(i + 1) =~= s.take(i as int).push(u@));
            assert(s.take(i + 1).drop_last() =~= s.take(i as int));
            assert(i * 0xffff_ffff_ffff_ffff + 0xffff_ffff_ffff_ffff == (i + 1)
                * 0xffff_ffff_ffff_ffff) by (nonlinear_arith);
            assert((i + 1) * 0xffff_ffff_ffff_ffff <= 0x1_0000_0000_0000_0000
                * 0xffff_ffff_ffff_ffff) by (nonlinear_arith)
                requires
                    i + 1 <= 0x1_0000_0000_0000_0000,
            ;
        }
        sum = sum + value as u128;
        i += 1;
        if sum >= amount as u128 + FEE_RESERVE as u128 {
            return (out, sum);
        }
    }
    assert(s.take(s.len() as int) =~= s);
    (out, sum)
}

// ---------------------------------------------------------------------------
// The fee
// ---------------------------------------------------------------------------

/// The size that is reckoned for a transaction.
pub open spec fn reckoned_size(inputs: nat, outputs: nat) -> nat {
    (OVERHEAD_SIZE + inputs * SIGNATURE_SIZE + outputs * OUTPUT_SIZE + inputs * INPUT_SIZE) as nat
}

/// The fee that is reckoned at first.
pub open spec fn first_fee(inputs: nat, rate: u64) -> nat {
    (inputs * SIGNATURE_SIZE + OVERHEAD_SIZE + OUTPUT_SIZE) as nat * rate as nat
}

/// The fee that is reckoned for what is left over after the amount, given the
/// fee before: it depends on whether there is change.
pub open spec fn next_fee(left: nat, fee: nat, inputs: nat, rate: u64) -> nat {
    let change = (left - fee) % 0x1_0000_0000_0000_0000;
    reckoned_size(
        inputs,
        if change > DUST {
            2
        } else {
            1
        },
    ) * rate as nat
}

/// Whether two fees are close.
pub open spec fn close(a: nat, b: nat) -> bool {
    a - b < FEE_TOLERANCE && b - a < FEE_TOLERANCE
}

/// The fee after reckoning it anew until it stays, but no more often than
/// allowed; `None` where it leaves the range of amounts.
pub open spec fn settled_fee(left: nat, fee: nat, inputs: nat, rate: u64, rounds: nat) -> Option<nat>
    decreases rounds,
{
    let next = next_fee(left, fee, inputs, rate);
    if fee > u64::MAX {
        None
    } else if rounds == 0 {
        Some(fee)
    } else if next > u64::MAX {
        None
    } else if close(next, fee) {
        Some(fee)
    } else {
        settled_fee(left, next, inputs, rate, (rounds - 1) as nat)
    }
}

/// The fee for a size at a rate; `None` where it leaves the range of amounts.
fn reckon(size: u128, rate: u64) -> (r: Option<u64>)
    ensures
        (match r {
            Some(f) => size * rate == f,
            None => size * rate > u64::MAX,
        }),
{
    match size.checked_mul(rate as u128) {
        Some(f) => if f > u64::MAX as u128 {
            None
        } else {
            Some(f as u64)
        },
        None => None,
    }
}

/// The fee for spending a number of inputs at a rate, given what is left over
/// after the amount.
pub fn settle_fee(left: u64, inputs: usize, rate: u64) -> (r: Option<u64>)
    ensures
        (match r {
            Some(f) => Some(f as nat),
            None => None::<nat>,
        }) == settled_fee(left as nat, first_fee(inputs as nat, rate), inputs as nat, rate, 20),
{
    let n: u128 = inputs as u128;
    let mut fee: u64 = match reckon(
        n * SIGNATURE_SIZE as u128 + OVERHEAD_SIZE as u128 + OUTPUT_SIZE as u128,
        rate,
    ) {
        Some(f) => f,
        None => {
            return None;
        },
    };
    let ghost first = fee as nat;
    let mut rounds: u64 = FEE_ROUNDS;
    while rounds > 0
        invariant
            n == inputs,
            rounds <= 20,
            settled_fee(left as nat, first, inputs as nat, rate, 20) == settled_fee(
                left as nat,
                fee as nat,
                inputs as nat,
                rate,
                rounds as nat,
            ),
            first == first_fee(inputs as nat, rate),
        decreases rounds,
    {
        let change: u64 = left.wrapping_sub(fee);
        assert(change == (left - fee) % 0x1_0000_0000_0000_0000);
        let outputs: u128 = if change > DUST {
            2
        } else {
            1
        };
        let size: u128 = OVERHEAD_SIZE as u128 + n * SIGNATURE_SIZE as u128 + outputs
            * OUTPUT_SIZE as u128 + n * INPUT_SIZE as u128;
        let next: u64 = match reckon(size, rate) {
            Some(f) => f,
            None => {
                return None;
            },
        };
        assert(next == next_fee(left as nat, fee as nat, inputs as nat, rate));
        let apart: u64 = if next < fee {
            fee - next
        } else {
            next - fee
        };
        if apart < FEE_TOLERANCE {
            return Some(fee);
        }
        fee = next;
        rounds -= 1;
    }
    Some(fee)
}

// ---------------------------------------------------------------------------
// The plan of a payment
// ---------------------------------------------------------------------------

/// What is spent for a payment, and what of it is fee and change.
pub struct PlanView {
    pub inputs: Seq<wallet::UtxoView>,
    pub fee: nat,
    pub change: nat,
}

/// The plan of a payment.
pub open spec fn plan_of(s: Seq<wallet::UtxoView>, amount: u64, rate: u64) -> Result<PlanView, Fault> {
    let inputs = picked(s, amount as nat);
    let sum = total(inputs);
    if sum > u64::MAX {
        Err(Fault::ValueOverflow)
    } else if sum < amount {
        Err(Fault::Other("Insufficient funds"@))
    } else {
        match settled_fee(
            (sum - amount) as nat,
            first_fee(inputs.len(), rate),
            inputs.len(),
            rate,
            20,
        ) {
            None => Err(Fault::ValueOverflow),
            Some(fee) => if sum < amount + fee {
                Err(Fault::Other("Insufficient funds (fees included)"@))
            } else {
                Ok(PlanView { inputs, fee, change: (sum - amount - fee) as nat })
            },
        }
    }
}

/// The plan of a payment.
pub struct Plan {
    /// What is spent.
    pub inputs: Vec<Utxo>,
    /// The fee.
    pub fee: u64,
    /// The change.
    pub change: u64,
}

impl View for Plan {
    type V = PlanView;

    open spec fn view(&self) -> PlanView {
        PlanView {
            inputs: wallet::utxos_view(self.inputs@),
            fee: self.fee as nat,
            change: self.change as nat,
        }
    }
}

/// The plan of a payment out of unspent outputs.
pub fn plan_payment(v: &Vec<Utxo>, amount: u64, rate: u64) -> (r: Result<Plan, ChainError>)
    ensures
        (match r {
            Ok(p) => Ok::<PlanView, Fault>(p@),
            Err(e) => Err(e@),
        }) == plan_of(wallet::utxos_view(v@), amount, rate),
{
    let (inputs, sum) = pick(v, amount);
    if sum > u64::MAX as u128 {
        return Err(ChainError::ValueOverflow);
    }
    let sum: u64 = sum as u64;
    if sum < amount {
        return Err(other("Insufficient funds"));
    }
    let left: u64 = sum - amount;
    match settle_fee(left, inputs.len(), rate) {
        None => Err(ChainError::ValueOverflow),
        Some(fee) => {
            if left < fee {
                return Err(other("Insufficient funds (fees included)"));
            }
            Ok(Plan { inputs, fee, change: left - fee })
        },
    }
}

/// Nothing is lost in a payment: what is spent is the amount, the fee and the
/// change.
pub proof fn law_plan_balances(s: Seq<wallet::UtxoView>, amount: u64, rate: u64)
    requires
        plan_of(s, amount, rate) is Ok,
    ensures
        ({
            let p = plan_of(s, amount, rate)->Ok_0;
            total(p.inputs) == amount + p.fee + p.change
        }),
{
}

/// A payment spends outputs that were there, and none of them twice.
pub proof fn law_plan_spends_own(s: Seq<wallet::UtxoView>, amount: u64, i: int, j: int)
    requires
        0 <= i < j < picked(s, amount as nat).len(),
    ensures
        ({
            let o = order::order_of(amounts(s));
            &&& 0 <= o[i] < s.len()
            &&& 0 <= o[j] < s.len()
            &&& o[i] != o[j]
            &&& picked(s, amount as nat)[i] == s[o[i]]
            &&& picked(s, amount as nat)[j] == s[o[j]]
        }),
{
    order::law_order_sorts(amounts(s), s.len());
    lemma_pick_count(largest_first(s), amount as nat, 0);
}

proof fn lemma_pick_count(s: Seq<wallet::UtxoView>, amount: nat, i: nat)
    ensures
        pick_count(s, amount, i) <= s.len(),
    decreases s.len() - i,
{
    if i < s.len() && total(s.take((i + 1) as int)) < amount + FEE_RESERVE {
        lemma_pick_count(s, amount, i + 1);
    }
}

// ---------------------------------------------------------------------------
// The transaction
// ---------------------------------------------------------------------------

/// An output that pays to the hash of a public key.
pub open spec fn pay_to(value: nat, pkh: Seq<u8>) -> tx::OutputView {
    tx::OutputView {
        value: value as u64,
        script_pubkey: script::p2pkh_of(pkh),
        commitment: None,
    }
}

/// The outputs of a payment: the amount, and the change where it is worth an
/// output or an address for it is given.
pub open spec fn payment_outputs(
    w: wallet::WalletView,
    to: Seq<char>,
    amount: u64,
    change: nat,
    change_addr: Option<Seq<char>>,
) -> Result<Seq<tx::OutputView>, Fault> {
    match address::address_hash(to) {
        Err(e) => Err(e),
        Ok(pkh) => {
            let paid = pay_to(amount as nat, pkh);
            if change > DUST {
                if w.current_change_index >= HARDENED {
                    Err(Fault::Other("Invalid child number"@))
                } else {
                    match hd::keys_at(w.seed, 1, w.current_change_index) {
                        Err(e) => Err(e),
                        Ok(k) => Ok(seq![paid, pay_to(change, hash::hash160_of(k.1))]),
                    }
                }
            } else {
                match change_addr {
                    None => Ok(seq![paid]),
                    Some(a) => match address::address_hash(a) {
                        Err(e) => Err(e),
                        Ok(h) => Ok(seq![paid, pay_to(change, h)]),
                    },
                }
            }
        },
    }
}

/// A payment before it is signed.
pub open spec fn unsigned_tx(inputs: Seq<wallet::UtxoView>, outputs: Seq<tx::OutputView>) -> tx::TxView {
    tx::TxView {
        version: 1,
        is_anonymous: false,
        inputs: Seq::new(
            inputs.len(),
            |i: int|
                tx::InputView {
                    txid: crate::bytes::as_id(inputs[i].txid),
                    vout: inputs[i].vout as u32,
                    script_sig: Seq::empty(),
                    sequence: u32::MAX,
                },
        ),
        outputs,
        lock_time: 0,
        range_proofs: Seq::empty(),
    }
}

/// What unlocks an input: the signature in DER, the type of the signature, and
/// the public key.
pub open spec fn unlocking_script(
    seed: Seq<u8>,
    t: tx::TxView,
    inputs: Seq<wallet::UtxoView>,
    i: int,
) -> Result<Seq<u8>, Fault> {
    let u = inputs[i];
    match hd::keys_at(seed, u.chain, u.index) {
        Err(e) => Err(e),
        Ok(k) => match secp::signature_of(tx::sighash_of(t, i, u.script_pubkey, 1), k.0) {
            None => Err(Fault::Other("Signing failed"@)),
            Some(der) => Ok(der.push(1) + k.1),
        },
    }
}

/// What unlocks the first `n` inputs.
pub open spec fn unlocking_upto(
    seed: Seq<u8>,
    t: tx::TxView,
    inputs: Seq<wallet::UtxoView>,
    n: nat,
) -> Result<Seq<Seq<u8>>, Fault>
    decreases n,
{
    if n == 0 {
        Ok(Seq::empty())
    } else {
        match unlocking_upto(seed, t, inputs, (n - 1) as nat) {
            Err(e) => Err(e),
            Ok(s) => match unlocking_script(seed, t, inputs, n - 1) {
                Err(e) => Err(e),
                Ok(x) => Ok(s.push(x)),
            },
        }
    }
}

/// A transaction with what unlocks its inputs.
pub open spec fn unlocked(t: tx::TxView, scripts: Seq<Seq<u8>>) -> tx::TxView {
    tx::TxView {
        inputs: Seq::new(
            t.inputs.len(),
            |i: int| tx::InputView { script_sig: scripts[i], ..t.inputs[i] },
        ),
        ..t
    }
}

/// The payment of an amount out of unspent outputs.
pub open spec fn payment_of(
    w: wallet::WalletView,
    s: Seq<wallet::UtxoView>,
    to: Seq<char>,
    amount: u64,
    rate: u64,
    change_addr: Option<Seq<char>>,
) -> Result<tx::TxView, Fault> {
    match plan_of(s, amount, rate) {
        Err(e) => Err(e),
        Ok(plan) => match payment_outputs(w, to, amount, plan.change, change_addr) {
            Err(e) => Err(e),
            Ok(outputs) => {
                let t = unsigned_tx(plan.inputs, outputs);
                match unlocking_upto(w.seed, t, plan.inputs, plan.inputs.len()) {
                    Err(e) => Err(e),
                    Ok(scripts) => Ok(unlocked(t, scripts)),
                }
            },
        },
    }
}

/// What an optional text says.
pub open spec fn text_opt(o: Option<&str>) -> Option<Seq<char>> {
    match o {
        Some(s) => Some(s@),
        None => None,
    }
}

proof fn lemma_unlocking_fails(
    seed: Seq<u8>,
    t: tx::TxView,
    inputs: Seq<wallet::UtxoView>,
    i: nat,
    n: nat,
)
    requires
        i <= n,
        unlocking_upto(seed, t, inputs, i) is Err,
    ensures
        unlocking_upto(seed, t, inputs, n) == unlocking_upto(seed, t, inputs, i),
    decreases n,
{
    if i < n {
        lemma_unlocking_fails(seed, t, inputs, i, (n - 1) as nat);
    }
}

/// What a result with a transaction says.
pub open spec fn tx_verdict(r: Result<(Transaction, [u8; 32]), ChainError>) -> Result<
    tx::TxView,
    Fault,
> {
    match r {
        Ok((t, _)) => Ok(t@),
        Err(e) => Err(e@),
    }
}

/// An output that pays to the hash of a public key.
fn make_output(value: u64, script_pubkey: Vec<u8>) -> (r: TXOutput)
    ensures
        r@ == (tx::OutputView { value, script_pubkey: script_pubkey@, commitment: None }),
{
    TXOutput { value, script_pubkey, commitment: None }
}

/// The inputs of a payment before they are signed.
fn make_inputs(v: &Vec<Utxo>) -> (r: Vec<TXInput>)
    ensures
        r@.map_values(|i: TXInput| i@) == unsigned_tx(
            wallet::utxos_view(v@),
            Seq::empty(),
        ).inputs,
{
    let ghost want = unsigned_tx(wallet::utxos_view(v@), Seq::empty()).inputs;
    let mut out: Vec<TXInput> = Vec::new();
    let mut i: usize = 0;
    while i < v.len()
        invariant
            i <= v@.len(),
            want == unsigned_tx(wallet::utxos_view(v@), Seq::empty()).inputs,
            out@.len() == i,
            forall|j: int| 0 <= j < i ==> (#[trigger] out@[j])@ == want[j],
        decreases v@.len() - i,
    {
        let u = &v[i];
        let input = TXInput {
            txid: u.txid,
            vout: u.vout,
            script_sig: Vec::new(),
            sequence: 0xffff_ffff,
        };
        proof {
            crate::bytes::lemma_as_id(u.txid);
            assert(wallet::utxos_view(v@)[i as int] == u@);
            assert(input@.script_sig =~= Seq::<u8>::empty());
        }
        out.push(input);
        i += 1;
    }
    assert(out@.map_values(|i: TXInput| i@) =~= want);
    out
}

impl Wallet {
    /// The outputs of a payment.
    fn make_outputs(&self, to: &str, amount: u64, change: u64, change_addr: Option<&str>) -> (r:
        Result<Vec<TXOutput>, ChainError>)
        ensures
            (match r {
                Ok(v) => Ok::<Seq<tx::OutputView>, Fault>(v@.map_values(|o: TXOutput| o@)),
                Err(e) => Err(e@),
            }) == payment_outputs(self@, to@, amount, change as nat, text_opt(change_addr)),
    {
        let pkh = match address_to_pubkey_hash(to) {
            Ok(h) => h,
            Err(e) => {
                return Err(e);
            },
        };
        let mut out: Vec<TXOutput> = Vec::new();
        out.push(make_output(amount, p2pkh_script_from_pkh(&pkh)));
        if change > DUST {
            if self.change_index() >= HARDENED {
                return Err(other("Invalid child number"));
            }
            match self.derive(1, self.change_index()) {
                Err(e) => {
                    return Err(e);
                },
                Ok((_, pk)) => {
                    out.push(make_output(change, p2pkh_script(&pk)));
                },
            }
        } else if let Some(a) = change_addr {
            match address_to_pubkey_hash(a) {
                Err(e) => {
                    return Err(e);
                },
                Ok(h) => {
                    out.push(make_output(change, p2pkh_script_from_pkh(&h)));
                },
            }
        }
        proof {
            let want = payment_outputs(
                self@,
                to@,
                amount,
                change as nat,
                text_opt(change_addr),
            )->Ok_0;
            assert(out@.map_values(|o: TXOutput| o@) =~= want);
        }
        Ok(out)
    }

    /// What unlocks an input of a payment: a signature that holds under the
    /// key of the output that it spends.
    fn unlock(&self, t: &Transaction, inputs: &Vec<Utxo>, i: usize) -> (r: Result<
        Vec<u8>,
        ChainError,
    >)
        requires
            i < inputs@.len(),
            i < t@.inputs.len(),
        ensures
            (match r {
                Ok(v) => Ok::<Seq<u8>, Fault>(v@),
                Err(e) => Err(e@),
            }) == unlocking_script(self@.seed, t@, wallet::utxos_view(inputs@), i as int),
            r is Ok ==> secp::signs(
                tx::sighash_of(t@, i as int, inputs@[i as int]@.script_pubkey, 1),
                r->Ok_0@.take(r->Ok_0@.len() - 34),
                hd::keys_at(
                    self@.seed,
                    inputs@[i as int].chain,
                    inputs@[i as int].index,
                )->Ok_0.0,
            ),
    {
        let u = &inputs[i];
        assert(wallet::utxos_view(inputs@)[i as int] == u@);
        match self.derive(u.chain, u.index) {
            Err(e) => Err(e),
            Ok((sk, pk)) => {
                let msg = t.sighash(i, u.script_pubkey.as_slice(), 1);
                match sign_ecdsa(&msg, &sk) {
                    None => Err(other("Signing failed")),
                    Some(der) => {
                        let mut out = der;
                        let ghost d = out@;
                        out.push(1);
                        let key = pk.serialize();
                        crate::bytes::append_bytes(&mut out, key.as_slice());
                        proof {
                            assert(out@.len() == d.len() + 34);
                            assert(out@.take(out@.len() - 34) =~= d);
                        }
                        Ok(out)
                    },
                }
            },
        }
    }

    /// The payment of an amount out of given unspent outputs, with its name.
    pub fn pay(
        &self,
        utxos: &Vec<Utxo>,
        to: &str,
        amount: u64,
        fee_rate: u64,
        change_addr: Option<&str>,
    ) -> (r: Result<(Transaction, [u8; 32]), ChainError>)
        ensures
            tx_verdict(r) == payment_of(
                self@,
                wallet::utxos_view(utxos@),
                to@,
                amount,
                fee_rate,
                text_opt(change_addr),
            ),
            r is Ok ==> r->Ok_0.1@ == tx::txid_of(r->Ok_0.0@),
    {
        let plan = match plan_payment(utxos, amount, fee_rate) {
            Ok(p) => p,
            Err(e) => {
                return Err(e);
            },
        };
        let outputs = match self.make_outputs(to, amount, plan.change, change_addr) {
            Ok(v) => v,
            Err(e) => {
                return Err(e);
            },
        };
        let inputs = make_inputs(&plan.inputs);
        let t = Transaction {
            version: 1,
            is_anonymous: false,
            inputs,
            outputs,
            lock_time: 0,
            range_proofs: Vec::new(),
        };
        let ghost own = wallet::utxos_view(plan.inputs@);
        let ghost want = unsigned_tx(own, t@.outputs);
        proof {
            assert(t@.inputs =~= want.inputs);
            assert(t@.range_proofs =~= want.range_proofs);
            assert(t@ == want);
        }
        match self.sign_all(t, &plan.inputs) {
            Ok(signed) => {
                let txid = signed.hash();
                Ok((signed, txid))
            },
            Err(e) => Err(e),
        }
    }

    /// A payment with what unlocks its inputs.
    fn sign_all(&self, t: Transaction, inputs: &Vec<Utxo>) -> (r: Result<Transaction, ChainError>)
        requires
            t@.inputs.len() == inputs@.len(),
        ensures
            (match r {
                Ok(s) => Ok::<tx::TxView, Fault>(s@),
                Err(e) => Err(e@),
            }) == match unlocking_upto(
                self@.seed,
                t@,
                wallet::utxos_view(inputs@),
                inputs@.len(),
            ) {
                Ok(scripts) => Ok(unlocked(t@, scripts)),
                Err(e) => Err(e),
            },
    {
        let ghost own = wallet::utxos_view(inputs@);
        let ghost scripts = Seq::<Seq<u8>>::empty();
        let mut signed: Vec<TXInput> = Vec::new();
        let mut i: usize = 0;
        while i < inputs.len()
            invariant
                i <= inputs@.len(),
                t@.inputs.len() == inputs@.len(),
                own == wallet::utxos_view(inputs@),
                scripts.len() == i,
                unlocking_upto(self@.seed, t@, own, i as nat) == Ok::<Seq<Seq<u8>>, Fault>(
                    scripts,
                ),
                signed@.len() == i,
                forall|j: int|
                    0 <= j < i ==> (#[trigger] signed@[j])@ == (tx::InputView {
                        script_sig: scripts[j],
                        ..t@.inputs[j]
                    }),
            decreases inputs@.len() - i,
        {
            let script_sig = match self.unlock(&t, inputs, i) {
                Ok(s) => s,
                Err(e) => {
                    proof {
                        lemma_unlocking_fails(
                            self@.seed,
                            t@,
                            own,
                            (i + 1) as nat,
                            inputs@.len(),
                        );
                    }
                    return Err(e);
                },
            };
            proof {
                scripts = scripts.push(script_sig@);
            }
            let from = &t.inputs[i];
            let input = TXInput {
                txid: from.txid,
                vout: from.vout,
                script_sig,
                sequence: from.sequence,
            };
            signed.push(input);
            i += 1;
        }
        let done = Transaction {
            version: t.version,
            is_anonymous: t.is_anonymous,
            inputs: signed,
            outputs: t.outputs,
            lock_time: t.lock_time,
            range_proofs: t.range_proofs,
        };
        assert(done@.inputs =~= unlocked(t@, scripts).inputs);
        Ok(done)
    }

    /// The payment of an amount out of what the wallet may spend, with its
    /// name.
    pub fn create_tx(
        &self,
        db: &Snapshot,
        rows: &Vec<Row>,
        to: &str,
        amount: u64,
        fee_rate: u64,
        change_addr: Option<&str>,
    ) -> (r: Result<(Transaction, [u8; 32]), ChainError>)
        ensures
            tx_verdict(r) == match wallet::utxos_of(
                self@.seed,
                db@,
                index::rows_view(rows@),
                true,
            ) {
                Err(e) => Err(e),
                Ok(s) => payment_of(self@, s, to@, amount, fee_rate, text_opt(change_addr)),
            },
            r is Ok ==> r->Ok_0.1@ == tx::txid_of(r->Ok_0.0@),
    {
        match self.get_utxos(db, rows, true) {
            Err(e) => Err(e),
            Ok(utxos) => self.pay(&utxos, to, amount, fee_rate, change_addr),
        }
    }
}

/// A payment pays the amount and no more than what is left after the fee: its
/// outputs come to the amount, with the change where there is an output for
/// it.
pub proof fn law_payment_outputs(
    w: wallet::WalletView,
    to: Seq<char>,
    amount: u64,
    change: nat,
    change_addr: Option<Seq<char>>,
)
    requires
        change <= u64::MAX,
        payment_outputs(w, to, amount, change, change_addr) is Ok,
    ensures
        ({
            let out = payment_outputs(w, to, amount, change, change_addr)->Ok_0;
            &&& out.len() >= 1
            &&& out[0].value == amount
            &&& tx::sum(tx::values(out)) == amount + if out.len() == 2 {
                change
            } else {
                0
            }
            &&& out.len() <= 2
            &&& change > DUST ==> out.len() == 2
        }),
{
    let out = payment_outputs(w, to, amount, change, change_addr)->Ok_0;
    let v = tx::values(out);
    if out.len() == 2 {
        assert(v.drop_last() =~= seq![v[0]]);
        assert(seq![v[0]].drop_last() =~= Seq::<u64>::empty());
        assert(tx::sum(seq![v[0]]) == v[0]);
    } else {
        assert(v =~= seq![v[0]]);
        assert(seq![v[0]].drop_last() =~= Seq::<u64>::empty());
    }
    reveal_with_fuel(tx::sum, 3);
}

/// A signed payment signs what the unsigned one does: the hash that an input's
/// signature covers does not depend on what unlocks the inputs.
pub proof fn law_signed_payment_sighash(t: tx::TxView, scripts: Seq<Seq<u8>>, i: int, script: Seq<u8>)
    ensures
        tx::sighash_of(unlocked(t, scripts), i, script, 1) == tx::sighash_of(t, i, script, 1),
{
    assert(tx::signed_form(unlocked(t, scripts), i, script).inputs =~= tx::signed_form(
        t,
        i,
        script,
    ).inputs);
}

/// Whether a payment gives change: an output follows the one that pays.
pub fn gives_change(tx: &Transaction) -> (r: bool)
    ensures
        r == (tx@.outputs.len() > 1),
{
    tx.outputs.len() > 1
}

// ---------------------------------------------------------------------------
// What a payment collects
// ---------------------------------------------------------------------------

/// What outputs come to is the sum of their amounts: none come to nothing, and
/// one more adds its amount.
pub proof fn law_total_adds(s: Seq<wallet::UtxoView>, u: wallet::UtxoView)
    ensures
        total(Seq::empty()) == 0,
        total(s.push(u)) == total(s) + u.value,
{
    assert(s.push(u).drop_last() =~= s);
}

proof fn lemma_pick_prefix(s: Seq<wallet::UtxoView>, amount: nat, i: nat)
    requires
        i <= s.len(),
    ensures
        ({
            let n = pick_count(s, amount, i);
            &&& i <= n <= s.len()
            &&& n == s.len() || total(s.take(n as int)) >= amount + 100_000
            &&& forall|m: int|
                i < m < n ==> total(#[trigger] s.take(m)) < amount + 100_000
        }),
    decreases s.len() - i,
{
    if i < s.len() && total(s.take((i + 1) as int)) < amount + 100_000 {
        lemma_pick_prefix(s, amount, i + 1);
        let n = pick_count(s, amount, i);
        assert(n == pick_count(s, amount, i + 1));
        assert forall|m: int| i < m < n implies total(#[trigger] s.take(m)) < amount + 100_000 by {
            if m == i + 1 {
                assert(s.take(m) == s.take((i + 1) as int));
            }
        }
    }
}

/// What is collected for an amount: there is an order of all outputs, each in
/// it once and none after a smaller one, in which those collected come first;
/// and they are all outputs, or reach the amount and 100000 more, while no
/// fewer of them do.
pub proof fn law_collects_largest_first(s: Seq<wallet::UtxoView>, amount: u64) -> (o: Seq<int>)
    requires
        forall|i: int| 0 <= i < s.len() ==> (#[trigger] s[i]).value <= u64::MAX,
    ensures
        o.len() == s.len(),
        o.no_duplicates(),
        forall|i: int| 0 <= i < o.len() ==> 0 <= #[trigger] o[i] < s.len(),
        forall|i: int, j: int|
            0 <= i < j < o.len() ==> s[#[trigger] o[i]].value >= s[#[trigger] o[j]].value,
        ({
            let p = picked(s, amount as nat);
            &&& p.len() <= s.len()
            &&& forall|i: int| 0 <= i < p.len() ==> #[trigger] p[i] == s[o[i]]
            &&& p.len() == s.len() || total(p) >= amount + 100_000
            &&& forall|m: int|
                0 <= m < p.len() ==> total(#[trigger] p.take(m)) < amount + 100_000
        }),
{
    let o = order::order_of(amounts(s));
    let sorted = largest_first(s);
    let p = picked(s, amount as nat);
    order::law_order_sorts(amounts(s), s.len());
    lemma_pick_prefix(sorted, amount as nat, 0);
    assert forall|i: int, j: int| 0 <= i < j < o.len() implies s[#[trigger] o[i]].value
        >= s[#[trigger] o[j]].value by {
        assert(amounts(s)[o[i]] == s[o[i]].value);
        assert(amounts(s)[o[j]] == s[o[j]].value);
    }
    assert forall|m: int| 0 <= m < p.len() implies total(#[trigger] p.take(m)) < amount
        + 100_000 by {
        assert(p.take(m) =~= sorted.take(m));
        if m == 0 {
            assert(p.take(m).len() == 0);
        }
    }
    o
}

proof fn lemma_total_without(s: Seq<wallet::UtxoView>, k: int)
    requires
        0 <= k < s.len(),
    ensures
        total(s) == total(s.remove(k)) + s[k].value,
    decreases s.len(),
{
    if k == s.len() - 1 {
        assert(s.remove(k) =~= s.drop_last());
    } else {
        lemma_total_without(s.drop_last(), k);
        assert(s.remove(k).drop_last() =~= s.drop_last().remove(k));
        assert(s.remove(k).last() == s.last());
    }
}

proof fn lemma_total_ordered(s: Seq<wallet::UtxoView>, o: Seq<int>)
    requires
        o.len() == s.len(),
        o.no_duplicates(),
        forall|i: int| 0 <= i < o.len() ==> 0 <= #[trigger] o[i] < s.len(),
    ensures
        total(Seq::new(s.len(), |i: int| s[o[i]])) == total(s),
    decreases s.len(),
{
    let n = s.len();
    let p = Seq::new(n, |i: int| s[o[i]]);
    if n > 0 {
        let all = vstd::set_lib::set_int_range(0, n as int);
        vstd::set_lib::lemma_int_range(0, n as int);
        o.unique_seq_to_set();
        assert(o.to_set().subset_of(all));
        vstd::set_lib::lemma_subset_equality(o.to_set(), all);
        assert(o.to_set().contains(n - 1));
        let k = choose|k: int| 0 <= k < o.len() && o[k] == n - 1;
        let rest = o.remove(k);
        assert forall|i: int| 0 <= i < rest.len() implies 0 <= #[trigger] rest[i] < n - 1 by {
            let j = if i < k {
                i
            } else {
                i + 1
            };
            assert(rest[i] == o[j]);
            assert(o[j] != o[k]);
        }
        assert forall|i: int, j: int|
            0 <= i < rest.len() && 0 <= j < rest.len() && i != j implies rest[i] != rest[j] by {
            assert(rest[i] == o[if i < k {
                i
            } else {
                i + 1
            }]);
            assert(rest[j] == o[if j < k {
                j
            } else {
                j + 1
            }]);
        }
        lemma_total_ordered(s.drop_last(), rest);
        lemma_total_without(p, k);
        let q = Seq::new((n - 1) as nat, |i: int| s.drop_last()[rest[i]]);
        assert forall|i: int| 0 <= i < q.len() implies q[i] == p.remove(k)[i] by {
            assert(0 <= rest[i] < n - 1);
        }
        assert(q =~= p.remove(k));
    }
}

proof fn lemma_total_prefix(s: Seq<wallet::UtxoView>, n: int)
    requires
        0 <= n <= s.len(),
    ensures
        total(s.take(n)) <= total(s),
    decreases s.len(),
{
    if n == s.len() {
        assert(s.take(n) =~= s);
    } else {
        lemma_total_prefix(s.drop_last(), n);
        assert(s.drop_last().take(n) =~= s.take(n));
    }
}

/// A payment fails for want of funds exactly where all outputs together come
/// to less than the amount.
pub proof fn law_funds_suffice(s: Seq<wallet::UtxoView>, amount: u64, rate: u64)
    requires
        forall|i: int| 0 <= i < s.len() ==> (#[trigger] s[i]).value <= u64::MAX,
    ensures
        plan_of(s, amount, rate) == Err::<PlanView, Fault>(Fault::Other("Insufficient funds"@))
            <==> total(s) < amount,
{
    let o = order::order_of(amounts(s));
    let sorted = largest_first(s);
    let p = picked(s, amount as nat);
    order::law_order_sorts(amounts(s), s.len());
    lemma_pick_prefix(sorted, amount as nat, 0);
    lemma_total_ordered(s, o);
    assert(sorted =~= Seq::new(s.len(), |i: int| s[o[i]]));
    lemma_total_prefix(sorted, p.len() as int);
    if p.len() == s.len() {
        assert(p =~= sorted);
    }
    reveal_strlit("Insufficient funds");
    reveal_strlit("Insufficient funds (fees included)");
    assert("Insufficient funds"@.len() != "Insufficient funds (fees included)"@.len());
}

// ---------------------------------------------------------------------------
// What fee a payment pays
// ---------------------------------------------------------------------------

proof fn lemma_next_fee(left: nat, fee: nat, n: nat, rate: u64)
    ensures
        ({
            let change = (left - fee) % 0x1_0000_0000_0000_0000;
            let one = (60 + 110 * n) * (rate as nat);
            let two = (94 + 110 * n) * (rate as nat);
            next_fee(left, fee, n, rate) == if change > 1000 {
                two
            } else {
                one
            }
        }),
{
    assert(reckoned_size(n, 1) == 60 + 110 * n);
    assert(reckoned_size(n, 2) == 94 + 110 * n);
}

proof fn lemma_settled_fee(left: nat, fee: nat, n: nat, rate: u64, rounds: nat)
    requires
        settled_fee(left, fee, n, rate, rounds) is Some,
        rounds > 0 || fee == (60 + 110 * n) * (rate as nat) || fee == (94 + 110 * n) * (
        rate as nat),
    ensures
        ({
            let f = settled_fee(left, fee, n, rate, rounds)->0;
            let one = (60 + 110 * n) * (rate as nat);
            let two = (94 + 110 * n) * (rate as nat);
            -20 < f - one < 20 || -20 < f - two < 20
        }),
    decreases rounds,
{
    lemma_next_fee(left, fee, n, rate);
    let next = next_fee(left, fee, n, rate);
    if rounds > 0 && next <= u64::MAX && !close(next, fee) {
        lemma_settled_fee(left, next, n, rate, (rounds - 1) as nat);
    }
}

/// The fee goes with the size: up to 19 it is the rate for 26 bytes, 110 for
/// each input, and 34 for each output, of which there are one or two.
pub proof fn law_fee_follows_size(s: Seq<wallet::UtxoView>, amount: u64, rate: u64)
    requires
        plan_of(s, amount, rate) is Ok,
    ensures
        ({
            let p = plan_of(s, amount, rate)->Ok_0;
            let one = (26 + 110 * p.inputs.len() + 34) * (rate as nat);
            let two = (26 + 110 * p.inputs.len() + 68) * (rate as nat);
            -20 < p.fee - one < 20 || -20 < p.fee - two < 20
        }),
{
    let p = picked(s, amount as nat);
    lemma_settled_fee(
        (total(p) - amount) as nat,
        first_fee(p.len(), rate),
        p.len(),
        rate,
        20,
    );
}

/// Where what is collected leaves change after the fee for two outputs, a
/// payment succeeds, and that is its fee, up to 19; where it leaves too little
/// for an output after the fee for one, it succeeds with that one.
pub proof fn law_payment_succeeds(s: Seq<wallet::UtxoView>, amount: u64, rate: u64)
    ensures
        ({
            let p = picked(s, amount as nat);
            let n = p.len();
            let least = (60 + 106 * n) * (rate as nat);
            let one = (26 + 110 * n + 34) * (rate as nat);
            let two = (26 + 110 * n + 68) * (rate as nat);
            let r = plan_of(s, amount, rate);
            &&& amount + two + 1000 < total(p) <= u64::MAX ==> r is Ok && r->Ok_0.inputs == p
                && -20 < r->Ok_0.fee - two < 20
            &&& total(p) <= u64::MAX && amount + one <= total(p) <= amount + least + 1000 ==> r
                is Ok && r->Ok_0.inputs == p && -20 < r->Ok_0.fee - one < 20
        }),
{
    let p = picked(s, amount as nat);
    let n = p.len();
    let least = (60 + 106 * n) * (rate as nat);
    let one = (60 + 110 * n) * (rate as nat);
    let two = (94 + 110 * n) * (rate as nat);
    assert(first_fee(n, rate) == least);
    assert(least <= one <= two) by (nonlinear_arith)
        requires
            least == (60 + 106 * n) * (rate as nat),
            one == (60 + 110 * n) * (rate as nat),
            two == (94 + 110 * n) * (rate as nat),
    ;
    if amount + two + 1000 < total(p) <= u64::MAX {
        let left = (total(p) - amount) as nat;
        lemma_next_fee(left, least, n, rate);
        lemma_next_fee(left, two, n, rate);
        reveal_with_fuel(settled_fee, 3);
    }
    if total(p) <= u64::MAX && amount + one <= total(p) <= amount + least + 1000 {
        let left = (total(p) - amount) as nat;
        lemma_next_fee(left, least, n, rate);
        lemma_next_fee(left, one, n, rate);
        reveal_with_fuel(settled_fee, 3);
    }
}

// ---------------------------------------------------------------------------
// What transaction a payment is
// ---------------------------------------------------------------------------

proof fn lemma_unlocking_at(
    seed: Seq<u8>,
    t: tx::TxView,
    inputs: Seq<wallet::UtxoView>,
    n: nat,
    i: int,
)
    requires
        0 <= i < n,
        unlocking_upto(seed, t, inputs, n) is Ok,
    ensures
        unlocking_upto(seed, t, inputs, n)->Ok_0.len() == n,
        unlocking_script(seed, t, inputs, i) == Ok::<Seq<u8>, Fault>(
            unlocking_upto(seed, t, inputs, n)->Ok_0[i],
        ),
    decreases n,
{
    reveal_with_fuel(unlocking_upto, 2);
    if n > 1 {
        lemma_unlocking_at(
            seed,
            t,
            inputs,
            (n - 1) as nat,
            if i < n - 1 {
                i
            } else {
                0
            },
        );
    }
}

/// A payment is the transaction that was planned: it spends what was
/// collected, in that order; it pays the amount to the address; change of more
/// than 1000 goes to the wallet's own next key for change, less is left out
/// unless there is an address for it; and every input is unlocked by a
/// signature of this transaction with the key of the output that it names,
/// followed by that key.
pub proof fn law_payment_is_as_planned(
    w: wallet::WalletView,
    s: Seq<wallet::UtxoView>,
    to: Seq<char>,
    amount: u64,
    rate: u64,
    change_addr: Option<Seq<char>>,
    i: int,
    id: [u8; 32],
)
    requires
        payment_of(w, s, to, amount, rate, change_addr) is Ok,
        0 <= i < plan_of(s, amount, rate)->Ok_0.inputs.len(),
        plan_of(s, amount, rate)->Ok_0.inputs[i].txid == id@,
        plan_of(s, amount, rate)->Ok_0.inputs[i].vout <= u32::MAX,
    ensures
        ({
            let t = payment_of(w, s, to, amount, rate, change_addr)->Ok_0;
            let p = plan_of(s, amount, rate)->Ok_0;
            let u = p.inputs[i];
            let out = t.outputs;
            let pkh = address::address_hash(to)->Ok_0;
            let own = hd::keys_at(w.seed, 1, w.current_change_index)->Ok_0;
            let key = hd::keys_at(w.seed, u.chain, u.index)->Ok_0;
            let head = seq![0x76u8, 0xa9, 0x14];
            let end = seq![0x88u8, 0xac];
            &&& plan_of(s, amount, rate) is Ok
            &&& t.version == 1 && !t.is_anonymous && t.lock_time == 0
            &&& t.inputs.len() == p.inputs.len()
            &&& t.inputs[i].txid@ == u.txid
            &&& t.inputs[i].vout == u.vout
            &&& t.inputs[i].sequence == 0xffff_ffff
            &&& secp::signature_of(tx::sighash_of(t, i, u.script_pubkey, 1), key.0) is Some
            &&& t.inputs[i].script_sig == secp::signature_of(
                tx::sighash_of(t, i, u.script_pubkey, 1),
                key.0,
            )->0 + seq![1u8] + key.1
            &&& out.len() >= 1 && out[0].value == amount && out[0].commitment is None
            &&& address::address_hash(to) is Ok && out[0].script_pubkey == head + pkh + end
            &&& p.change > 1000 ==> out.len() == 2 && out[1].value == p.change
                && out[1].script_pubkey == head + hash::hash160_of(own.1) + end
            &&& p.change <= 1000 && change_addr is None ==> out.len() == 1
            &&& p.change <= 1000 && change_addr is Some ==> {
                &&& out.len() == 2
                &&& out[1].value == p.change
                &&& address::address_hash(change_addr->0) is Ok
                &&& out[1].script_pubkey == head + address::address_hash(change_addr->0)->Ok_0
                    + end
            }
        }),
{
    let p = plan_of(s, amount, rate)->Ok_0;
    let outputs = payment_outputs(w, to, amount, p.change, change_addr)->Ok_0;
    let t = unsigned_tx(p.inputs, outputs);
    let scripts = unlocking_upto(w.seed, t, p.inputs, p.inputs.len())->Ok_0;
    let u = p.inputs[i];
    lemma_unlocking_at(w.seed, t, p.inputs, p.inputs.len(), i);
    law_signed_payment_sighash(t, scripts, i, u.script_pubkey);
    crate::bytes::lemma_as_id(id);
    let key = hd::keys_at(w.seed, u.chain, u.index)->Ok_0;
    let der = secp::signature_of(tx::sighash_of(t, i, u.script_pubkey, 1), key.0)->0;
    assert(der.push(1) + key.1 =~= der + seq![1u8] + key.1);
}

} // verus!
