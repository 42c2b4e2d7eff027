//! The wallet's window: what it holds, and what each thing that happens does.
use crate::address;
use crate::address::pubkey_to_anon_address;
use crate::bytes;
use crate::bytes::{from_be, read32};
use crate::errors::{other, ChainError, Fault};
use crate::hd;
use crate::hd::seed_from_phrase;
use crate::history;
use crate::history::TxHistoryEntry;
use crate::pay;
use crate::scan::WalletScan;
use crate::text;
use crate::text::parse_number;
use crate::vault;
use crate::vault::{decrypt_wallet, encrypt_wallet};
use crate::wallet;
use crate::wallet::Utxo;
use vstd::prelude::*;

verus! {

/// The fee rate that the window starts with.
pub const DEFAULT_FEE_RATE: &'static str = "10";

/// Which part of the window is shown.
#[derive(Debug, Clone, Copy, PartialEq, Eq, Structural)]
pub enum AppState {
    /// The password is asked for.
    SetupPassword,
    /// A wallet is made.
    CreateWallet,
    /// A wallet is made from its phrase.
    RestoreWallet,
    /// The wallet is open.
    Main,
}

/// Which part of an open wallet is shown.
#[derive(Debug, Clone, Copy, PartialEq, Eq, Structural)]
pub enum Tab {
    /// An address to receive at.
    Receive,
    /// The form for a payment.
    Send,
    /// The history.
    History,
}

/// A payment that is to be made.
pub struct SendOrder {
    /// The address that is paid.
    pub to: String,
    /// The amount.
    pub amount: u64,
    /// The fee rate.
    pub fee_rate: u64,
    /// The index of the next address for change.
    pub change_index: u32,
}

/// The wallet's window.
pub struct LyrionWalletApp {
    /// The password as it is typed.
    pub temp_password_input: String,
    /// The password as it is typed again.
    pub temp_password_confirm: String,
    /// The password of the open wallet.
    pub password: String,
    /// The phrase of a wallet that is made.
    pub mnemonic: Option<String>,
    /// The seed of the open wallet.
    pub seed: Option<[u8; 64]>,
    /// The unspent outputs.
    pub utxos: Vec<Utxo>,
    /// What the confirmed ones come to.
    pub balance: u64,
    /// What the others come to.
    pub pending_balance: u64,
    /// The addresses to receive at that have a trace.
    pub receive_addresses: Vec<String>,
    /// The addresses for change that have a trace.
    pub change_addresses: Vec<String>,
    /// The index of the next address to receive at.
    pub current_receive_index: u32,
    /// The index of the next address for change.
    pub current_change_index: u32,
    /// The height of the chain.
    pub current_height: usize,
    /// What went wrong last.
    pub error: Option<String>,
    /// The address that is paid, as it is typed.
    pub to_address: String,
    /// The amount, as it is typed.
    pub amount_str: String,
    /// The fee rate, as it is typed.
    pub fee_rate_str: String,
    /// The history.
    pub history: Vec<TxHistoryEntry>,
    /// The key of anonymous payments.
    pub anon_spend_key: Option<[u8; 32]>,
    /// The address of anonymous payments; empty where there is no key.
    pub anon_address: String,
    /// Which part of the window is shown.
    pub state: AppState,
    /// Which part of the open wallet is shown.
    pub selected_tab: Option<Tab>,
}

/// What an optional text says.
pub open spec fn text_of(o: Option<String>) -> Option<Seq<char>> {
    match o {
        Some(s) => Some(s@),
        None => None,
    }
}

/// The unspent outputs that a block holds, or those that none does.
pub open spec fn with_block(s: Seq<wallet::UtxoView>, confirmed: bool) -> Seq<wallet::UtxoView> {
    s.filter(|u: wallet::UtxoView| u.is_confirmed == confirmed)
}

/// What the unspent outputs that a block holds come to, or those that none
/// does; `None` where that leaves the range of amounts.
pub fn sum_with_block(v: &Vec<Utxo>, confirmed: bool) -> (r: Option<u64>)
    ensures
        match r {
            Some(t) => pay::total(with_block(wallet::utxos_view(v@), confirmed)) == t,
            None => pay::total(with_block(wallet::utxos_view(v@), confirmed)) > u64::MAX,
        },
{
    let ghost s = wallet::utxos_view(v@);
    let mut sum: u64 = 0;
    let mut i: usize = 0;
    proof {
        reveal(Seq::filter);
        assert(s.take(0) =~= Seq::<wallet::UtxoView>::empty());
    }
    while i < v.len()
        invariant
            i <= v@.len(),
            s == wallet::utxos_view(v@),
            sum == pay::total(with_block(s.take(i as int), confirmed)),
        decreases v@.len() - i,
    {
        let ghost before = with_block(s.take(i as int), confirmed);
        let ghost after = with_block(s.take(i + 1), confirmed);
        proof {
            reveal(Seq::filter);
            assert(s.take(i + 1).drop_last() =~= s.take(i as int));
            assert(s.take(i + 1).last() == v@[i as int]@);
            lemma_with_block_grows(s, confirmed, i + 1);
        }
        if v[i].is_confirmed == confirmed {
            proof {
                assert(after == before.push(v@[i as int]@));
                assert(after.drop_last() =~= before);
            }
            let value: u64 = v[i].value;
            if value > u64::MAX - sum {
                return None;
            }
            sum = sum + value;
        }
        i += 1;
    }
    assert(s.take(s.len() as int) =~= s);
    Some(sum)
}

proof fn lemma_with_block_grows(s: Seq<wallet::UtxoView>, confirmed: bool, n: int)
    requires
        0 <= n <= s.len(),
    ensures
        pay::total(with_block(s.take(n), confirmed)) <= pay::total(with_block(s, confirmed)),
    decreases s.len() - n,
{
    if n < s.len() {
        lemma_with_block_grows(s, confirmed, n + 1);
        reveal(Seq::filter);
        assert(s.take(n + 1).drop_last() =~= s.take(n));
        let before = with_block(s.take(n), confirmed);
        let after = with_block(s.take(n + 1), confirmed);
        if s[n].is_confirmed == confirmed {
            assert(after.drop_last() =~= before);
        }
    } else {
        assert(s.take(n) =~= s);
    }
}

impl LyrionWalletApp {
    /// The window at the start: the password is asked for where there is a
    /// wallet, and a wallet is made otherwise. A key of anonymous payments is
    /// taken where it has 32 bytes; its public key is handed in.
    pub fn new(has_wallet: bool, anon_file: Option<&[u8]>, anon_public: &[u8; 32]) -> (r: Self)
        ensures
            r.state == if has_wallet {
                AppState::SetupPassword
            } else {
                AppState::CreateWallet
            },
            match anon_file {
                Some(f) => if f@.len() == 32 {
                    &&& r.anon_spend_key is Some
                    &&& r.anon_spend_key->0@ == f@
                    &&& r.anon_address@ == address::address_text(
                        address::ANON_VERSION,
                        anon_public@,
                    )
                } else {
                    r.anon_spend_key is None && r.anon_address@.len() == 0
                },
                None => r.anon_spend_key is None && r.anon_address@.len() == 0,
            },
            r.temp_password_input@.len() == 0,
            r.temp_password_confirm@.len() == 0,
            r.password@.len() == 0,
            r.mnemonic is None,
            r.seed is None,
            r.utxos@.len() == 0,
            r.balance == 0,
            r.pending_balance == 0,
            r.receive_addresses@.len() == 0,
            r.change_addresses@.len() == 0,
            r.current_receive_index == 0,
            r.current_change_index == 0,
            r.current_height == 0,
            r.error is None,
            r.to_address@.len() == 0,
            r.amount_str@.len() == 0,
            r.fee_rate_str@ == DEFAULT_FEE_RATE@,
            r.history@.len() == 0,
            r.selected_tab is None,
    {
        let mut anon_spend_key: Option<[u8; 32]> = None;
        let mut anon_address = String::new();
        if let Some(f) = anon_file {
            if f.len() == 32 {
                let key = read32(f, 0);
                assert(key@ =~= f@);
                anon_spend_key = Some(key);
                anon_address = pubkey_to_anon_address(anon_public);
            }
        }
        LyrionWalletApp {
            temp_password_input: String::new(),
            temp_password_confirm: String::new(),
            password: String::new(),
            mnemonic: None,
            seed: None,
            utxos: Vec::new(),
            balance: 0,
            pending_balance: 0,
            receive_addresses: Vec::new(),
            change_addresses: Vec::new(),
            current_receive_index: 0,
            current_change_index: 0,
            current_height: 0,
            error: None,
            to_address: String::new(),
            amount_str: String::new(),
            fee_rate_str: DEFAULT_FEE_RATE.to_string(),
            history: Vec::new(),
            anon_spend_key,
            anon_address,
            state: if has_wallet {
                AppState::SetupPassword
            } else {
                AppState::CreateWallet
            },
            selected_tab: None,
        }
    }

    /// Takes the height of the chain from the first four bytes of its record,
    /// the most significant one first; without a record it stays.
    pub fn load_current_height(&mut self, record: Option<&[u8]>)
        requires
            record is Some ==> record->0@.len() >= 4,
        ensures
            *final(self) == (LyrionWalletApp {
                current_height: match record {
                    Some(h) => bytes::be_value(h@.take(4)) as usize,
                    None => old(self).current_height,
                },
                ..*old(self)
            }),
    {
        if let Some(h) = record {
            let head = vstd::slice::slice_subrange(h, 0, 4);
            proof {
                assert(head@ =~= h@.take(4));
                bytes::lemma_be_write_read(head@);
                bytes::lemma_pow256_values();
            }
            self.current_height = from_be(head) as usize;
        }
    }

    /// Another address to receive at is asked for.
    pub fn next_receive_address(&mut self)
        requires
            old(self).current_receive_index < u32::MAX,
        ensures
            *final(self) == (LyrionWalletApp {
                current_receive_index: (old(self).current_receive_index + 1) as u32,
                ..*old(self)
            }),
    {
        self.current_receive_index = self.current_receive_index + 1;
    }

    /// The address to receive at that is shown: the last one that has a trace,
    /// and none where no one has.
    pub fn shown_address(&self) -> (r: String)
        ensures
            r@ == if self.receive_addresses@.len() > 0 {
                self.receive_addresses@.last()@
            } else {
                Seq::empty()
            },
    {
        let n: usize = self.receive_addresses.len();
        if n > 0 {
            self.receive_addresses[n - 1].clone()
        } else {
            let none = String::new();
            assert(none@ =~= Seq::<char>::empty());
            none
        }
    }

    /// The wallet is locked: its password is forgotten and asked for.
    pub fn lock(&mut self)
        ensures
            final(self).password@.len() == 0,
            *final(self) == (LyrionWalletApp {
                password: final(self).password,
                state: AppState::SetupPassword,
                ..*old(self)
            }),
    {
        self.state = AppState::SetupPassword;
        self.password = String::new();
    }

    /// A part of the open wallet is chosen.
    pub fn select(&mut self, tab: Tab)
        ensures
            *final(self) == (LyrionWalletApp { selected_tab: Some(tab), ..*old(self) }),
    {
        self.selected_tab = Some(tab);
    }

    /// The password was typed: it opens the wallet's file, or is refused. Says
    /// whether the wallet is open and is to be scanned.
    pub fn unlock(&mut self, file: Option<&[u8]>) -> (r: bool)
        ensures
            ({
                let typed = old(self).temp_password_input@;
                &&& final(self).temp_password_input@.len() == 0
                &&& r == (file is Some && vault::vault_seed(typed, file->0@) is Ok)
                &&& *final(self) == (LyrionWalletApp {
                    temp_password_input: final(self).temp_password_input,
                    password: final(self).password,
                    seed: final(self).seed,
                    error: final(self).error,
                    state: if r {
                        AppState::Main
                    } else {
                        old(self).state
                    },
                    ..*old(self)
                })
                &&& if r {
                    &&& final(self).password@ == typed
                    &&& final(self).seed is Some
                    &&& Ok::<Seq<u8>, Fault>(final(self).seed->0@) == vault::vault_seed(
                        typed,
                        file->0@,
                    )
                    &&& final(self).error == old(self).error
                } else {
                    &&& final(self).password == old(self).password
                    &&& final(self).seed == old(self).seed
                    &&& text_of(final(self).error) == if file is Some {
                        Some("Incorrect password"@)
                    } else {
                        text_of(old(self).error)
                    }
                }
            }),
    {
        let typed = self.temp_password_input.clone();
        self.temp_password_input = String::new();
        match file {
            None => false,
            Some(data) => match decrypt_wallet(typed.as_str(), data) {
                Ok(seed) => {
                    self.password = typed;
                    self.seed = Some(seed);
                    self.state = AppState::Main;
                    true
                },
                Err(_) => {
                    self.error = Some("Incorrect password".to_string());
                    false
                },
            },
        }
    }

    /// A new wallet is confirmed: where the password was typed twice alike and
    /// is not empty, the wallet of the phrase is opened. Says whether it is
    /// open and is to be scanned.
    pub fn confirm(&mut self) -> (r: Result<bool, ChainError>)
        ensures
            ({
                let typed = old(self).temp_password_input@;
                let agreed = typed == old(self).temp_password_confirm@ && typed.len() > 0;
                if !agreed {
                    r is Ok && !r->Ok_0 && *final(self) == *old(self)
                } else {
                    &&& final(self).temp_password_input@.len() == 0
                    &&& final(self).temp_password_confirm@.len() == 0
                    &&& final(self).password@ == typed
                    &&& match text_of(old(self).mnemonic) {
                        None => r is Ok && !r->Ok_0 && final(self).seed == old(self).seed
                            && final(self).state == old(self).state,
                        Some(m) => match hd::phrase_seed(m) {
                            None => {
                                &&& r is Err
                                &&& r->Err_0@ == Fault::Other("Invalid mnemonic"@)
                                &&& final(self).seed == old(self).seed
                                &&& final(self).state == old(self).state
                            },
                            Some(seed) => {
                                &&& r is Ok
                                &&& r->Ok_0
                                &&& final(self).seed is Some
                                &&& final(self).seed->0@ == seed
                                &&& final(self).state == AppState::Main
                            },
                        },
                    }
                    &&& *final(self) == (LyrionWalletApp {
                        temp_password_input: final(self).temp_password_input,
                        temp_password_confirm: final(self).temp_password_confirm,
                        password: final(self).password,
                        seed: final(self).seed,
                        state: final(self).state,
                        ..*old(self)
                    })
                }
            }),
    {
        if self.temp_password_input != self.temp_password_confirm
            || self.temp_password_input.as_str().is_empty() {
            return Ok(false);
        }
        self.password = self.temp_password_input.clone();
        self.temp_password_input = String::new();
        self.temp_password_confirm = String::new();
        match &self.mnemonic {
            None => Ok(false),
            Some(m) => match seed_from_phrase(m.as_str()) {
                None => Err(other("Invalid mnemonic")),
                Some(seed) => {
                    self.seed = Some(seed);
                    self.state = AppState::Main;
                    Ok(true)
                },
            },
        }
    }

    /// A scan has ended: the window shows what it found. Says whether the
    /// balances are amounts; where they are not, nothing changes.
    pub fn scanned(&mut self, found: WalletScan) -> (r: bool)
        ensures
            ({
                let s = wallet::utxos_view(found.utxos@);
                let confirmed = pay::total(with_block(s, true));
                let pending = pay::total(with_block(s, false));
                &&& r == (confirmed <= u64::MAX && pending <= u64::MAX)
                &&& *final(self) == if r {
                    (LyrionWalletApp {
                        utxos: found.utxos,
                        balance: confirmed as u64,
                        pending_balance: pending as u64,
                        history: found.history,
                        receive_addresses: found.receive_addresses,
                        change_addresses: found.change_addresses,
                        current_receive_index: found.receive_index,
                        current_change_index: found.change_index,
                        ..*old(self)
                    })
                } else {
                    *old(self)
                }
            }),
    {
        match (sum_with_block(&found.utxos, true), sum_with_block(&found.utxos, false)) {
            (Some(balance), Some(pending)) => {
                self.utxos = found.utxos;
                self.balance = balance;
                self.pending_balance = pending;
                self.history = found.history;
                self.receive_addresses = found.receive_addresses;
                self.change_addresses = found.change_addresses;
                self.current_receive_index = found.receive_index;
                self.current_change_index = found.change_index;
                true
            },
            _ => false,
        }
    }

    /// A scan or a payment has failed.
    pub fn failed(&mut self, why: &str)
        ensures
            text_of(final(self).error) == Some(why@),
            *final(self) == (LyrionWalletApp { error: final(self).error, ..*old(self) }),
    {
        self.error = Some(why.to_string());
    }

    /// The form for a payment was shown: the payment that is to be made where
    /// it was asked for and the amount and the fee rate are numbers, and a
    /// complaint otherwise.
    pub fn send_form(&mut self, asked: bool) -> (r: Option<SendOrder>)
        ensures
            ({
                let amount = text::number_of(old(self).amount_str@);
                let fee = text::number_of(old(self).fee_rate_str@);
                &&& r is Some == (asked && amount is Some && fee is Some)
                &&& r is Some ==> {
                    &&& r->0.to@ == old(self).to_address@
                    &&& Some(r->0.amount) == amount
                    &&& Some(r->0.fee_rate) == fee
                    &&& r->0.change_index == old(self).current_change_index
                    &&& *final(self) == *old(self)
                }
                &&& r is None ==> {
                    &&& text_of(final(self).error) == Some("Invalid amount or fees"@)
                    &&& *final(self) == (LyrionWalletApp { error: final(self).error, ..*old(self) })
                }
            }),
    {
        if asked {
            let amount = parse_number(self.amount_str.as_str());
            let fee = parse_number(self.fee_rate_str.as_str());
            if let (Some(amount), Some(fee_rate)) = (amount, fee) {
                return Some(
                    SendOrder {
                        to: self.to_address.clone(),
                        amount,
                        fee_rate,
                        change_index: self.current_change_index,
                    },
                );
            }
        }
        self.error = Some("Invalid amount or fees".to_string());
        None
    }

    /// A payment was made: the form is empty again, and the next address for
    /// change is another one where this one was used.
    pub fn payment_sent(&mut self, used_change: bool)
        requires
            used_change ==> old(self).current_change_index < u32::MAX,
        ensures
            final(self).to_address@.len() == 0,
            final(self).amount_str@.len() == 0,
            *final(self) == (LyrionWalletApp {
                to_address: final(self).to_address,
                amount_str: final(self).amount_str,
                current_change_index: if used_change {
                    (old(self).current_change_index + 1) as u32
                } else {
                    old(self).current_change_index
                },
                ..*old(self)
            }),
    {
        if used_change {
            self.current_change_index = self.current_change_index + 1;
        }
        self.to_address = String::new();
        self.amount_str = String::new();
    }

    /// The wallet's file for the open wallet and its password; `None` where no
    /// wallet is open.
    pub fn save(&self, salt: &[u8; 32], nonce: &[u8; 12]) -> (r: Option<
        Result<Vec<u8>, ChainError>,
    >)
        ensures
            match r {
                None => self.seed is None,
                Some(Ok(v)) => {
                    &&& self.seed is Some
                    &&& vault::vault_of(self.password@, self.seed->0@, salt@, nonce@) == Ok::<
                        Seq<u8>,
                        Fault,
                    >(v@)
                    &&& vault::vault_seed(self.password@, v@) == Ok::<Seq<u8>, Fault>(
                        self.seed->0@,
                    )
                },
                Some(Err(e)) => self.seed is Some && vault::vault_of(
                    self.password@,
                    self.seed->0@,
                    salt@,
                    nonce@,
                ) == Err::<Seq<u8>, Fault>(e@),
            },
    {
        match &self.seed {
            None => None,
            Some(seed) => Some(encrypt_wallet(self.password.as_str(), seed, salt, nonce)),
        }
    }
}

} // verus!
