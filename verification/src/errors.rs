//! The errors of the library.
use vstd::prelude::*;
use vstd::string::StringExecFns;

verus! {

/// Why a block, a transaction, a message or a stored record was refused.
#[derive(Debug, Clone, PartialEq, Eq)]
pub enum ChainError {
    /// An input names an output that is not in the unspent set.
    MissingUTXO,
    /// An output or a key image is spent twice.
    DoubleSpend,
    /// A script is not of a known shape, or its parts do not fit.
    InvalidScript,
    /// A transaction breaks a rule that has no variant of its own.
    InvalidTx(String),
    /// A block breaks a rule that has no variant of its own.
    InvalidBlock(String),
    /// A reorganization would disconnect too many blocks, or gains too little.
    ReorgTooDeep,
    /// The fee is below the minimum.
    InsufficientFee,
    /// A coinbase output is spent too early.
    CoinbaseImmature,
    /// The coinbase does not pay the subsidy plus the fees.
    InvalidCoinbaseFee,
    /// The header's hash is above its target.
    InsufficientPoW,
    /// A timestamp is out of range.
    InvalidTimestamp,
    /// The lock time is not reached.
    InvalidLockTime,
    /// A validation took too long.
    ValidationTimeout,
    /// A sum of amounts leaves the range of amounts.
    ValueOverflow,
    /// A signature does not verify.
    InvalidSignature,
    /// A checkpoint or a size limit is violated.
    AttackDetected,
    /// A range proof does not verify.
    InvalidRangeProof,
    /// A handshake breaks a rule.
    InvalidHandshake,
    /// The peer is banned.
    PeerBanned,
    /// The peer did not answer in time.
    PeerTimeout,
    /// The pool is full.
    MempoolOverflow,
    /// A key image is not a valid one.
    InvalidKeyImage,
    /// Compressed data does not decompress.
    DecompressionFailed,
    /// A transaction depends on too many unconfirmed ones.
    PackageDepthExceeded,
    /// A commitment is missing, is not a point, or does not balance.
    InvalidCommitment,
    /// The recorded supply is not the computed one.
    SupplyMismatch,
    /// A secret file has the wrong owner, mode or size.
    FilePermissionError(String),
    /// A key has the wrong length.
    InvalidEncryptionKey,
    /// Any other failure, with its message.
    Other(String),
}

/// What an error says: its kind and the text it carries.
pub enum Fault {
    MissingUTXO,
    DoubleSpend,
    InvalidScript,
    InvalidTx(Seq<char>),
    InvalidBlock(Seq<char>),
    ReorgTooDeep,
    InsufficientFee,
    CoinbaseImmature,
    InvalidCoinbaseFee,
    InsufficientPoW,
    InvalidTimestamp,
    InvalidLockTime,
    ValidationTimeout,
    ValueOverflow,
    InvalidSignature,
    AttackDetected,
    InvalidRangeProof,
    InvalidHandshake,
    PeerBanned,
    PeerTimeout,
    MempoolOverflow,
    InvalidKeyImage,
    DecompressionFailed,
    PackageDepthExceeded,
    InvalidCommitment,
    SupplyMismatch,
    FilePermissionError(Seq<char>),
    InvalidEncryptionKey,
    Other(Seq<char>),
}

impl View for ChainError {
    type V = Fault;

    open spec fn view(&self) -> Fault {
        match self {
            ChainError::MissingUTXO => Fault::MissingUTXO,
            ChainError::DoubleSpend => Fault::DoubleSpend,
            ChainError::InvalidScript => Fault::InvalidScript,
            ChainError::InvalidTx(s) => Fault::InvalidTx(s@),
            ChainError::InvalidBlock(s) => Fault::InvalidBlock(s@),
            ChainError::ReorgTooDeep => Fault::ReorgTooDeep,
            ChainError::InsufficientFee => Fault::InsufficientFee,
            ChainError::CoinbaseImmature => Fault::CoinbaseImmature,
            ChainError::InvalidCoinbaseFee => Fault::InvalidCoinbaseFee,
            ChainError::InsufficientPoW => Fault::InsufficientPoW,
            ChainError::InvalidTimestamp => Fault::InvalidTimestamp,
            ChainError::InvalidLockTime => Fault::InvalidLockTime,
            ChainError::ValidationTimeout => Fault::ValidationTimeout,
            ChainError::ValueOverflow => Fault::ValueOverflow,
            ChainError::InvalidSignature => Fault::InvalidSignature,
            ChainError::AttackDetected => Fault::AttackDetected,
            ChainError::InvalidRangeProof => Fault::InvalidRangeProof,
            ChainError::InvalidHandshake => Fault::InvalidHandshake,
            ChainError::PeerBanned => Fault::PeerBanned,
            ChainError::PeerTimeout => Fault::PeerTimeout,
            ChainError::MempoolOverflow => Fault::MempoolOverflow,
            ChainError::InvalidKeyImage => Fault::InvalidKeyImage,
            ChainError::DecompressionFailed => Fault::DecompressionFailed,
            ChainError::PackageDepthExceeded => Fault::PackageDepthExceeded,
            ChainError::InvalidCommitment => Fault::InvalidCommitment,
            ChainError::SupplyMismatch => Fault::SupplyMismatch,
            ChainError::FilePermissionError(s) => Fault::FilePermissionError(s@),
            ChainError::InvalidEncryptionKey => Fault::InvalidEncryptionKey,
            ChainError::Other(s) => Fault::Other(s@),
        }
    }
}

/// The message of an error.
pub open spec fn fault_message(f: Fault) -> Seq<char> {
    match f {
        Fault::MissingUTXO => "Missing UTXO"@,
        Fault::DoubleSpend => "Double spend"@,
        Fault::InvalidScript => "Invalid script"@,
        Fault::ReorgTooDeep => "Reorganization too deep"@,
        Fault::InsufficientFee => "Insufficient fees"@,
        Fault::CoinbaseImmature => "Coinbase immature"@,
        Fault::InvalidCoinbaseFee => "Invalid coinbase fees"@,
        Fault::InsufficientPoW => "Insufficient PoW"@,
        Fault::InvalidTimestamp => "Invalid timestamp"@,
        Fault::InvalidLockTime => "Invalid lock time"@,
        Fault::ValidationTimeout => "Validation timeout"@,
        Fault::ValueOverflow => "Value overflow"@,
        Fault::InvalidSignature => "Invalid signature"@,
        Fault::AttackDetected => "Attack detected"@,
        Fault::InvalidRangeProof => "Invalid range proof"@,
        Fault::InvalidHandshake => "Invalid handshake"@,
        Fault::PeerBanned => "Peer banned"@,
        Fault::PeerTimeout => "Peer timeout"@,
        Fault::MempoolOverflow => "Mempool overflow"@,
        Fault::InvalidKeyImage => "Invalid key image"@,
        Fault::DecompressionFailed => "Decompression failed"@,
        Fault::PackageDepthExceeded => "Package depth exceeded"@,
        Fault::InvalidCommitment => "Invalid commitment"@,
        Fault::SupplyMismatch => "Supply validation failed"@,
        Fault::InvalidEncryptionKey => "Invalid encryption key"@,
        Fault::InvalidTx(s) => "Invalid transaction: "@ + s,
        Fault::InvalidBlock(s) => "Invalid block: "@ + s,
        Fault::FilePermissionError(s) => "File permission error: "@ + s,
        Fault::Other(s) => s,
    }
}

impl ChainError {
    /// The message of the error.
    pub fn message(&self) -> (r: String)
        ensures
            r@ == fault_message(self@),
    {
        match self {
            ChainError::MissingUTXO => "Missing UTXO".to_string(),
            ChainError::DoubleSpend => "Double spend".to_string(),
            ChainError::InvalidScript => "Invalid script".to_string(),
            ChainError::ReorgTooDeep => "Reorganization too deep".to_string(),
            ChainError::InsufficientFee => "Insufficient fees".to_string(),
            ChainError::CoinbaseImmature => "Coinbase immature".to_string(),
            ChainError::InvalidCoinbaseFee => "Invalid coinbase fees".to_string(),
            ChainError::InsufficientPoW => "Insufficient PoW".to_string(),
            ChainError::InvalidTimestamp => "Invalid timestamp".to_string(),
            ChainError::InvalidLockTime => "Invalid lock time".to_string(),
            ChainError::ValidationTimeout => "Validation timeout".to_string(),
            ChainError::ValueOverflow => "Value overflow".to_string(),
            ChainError::InvalidSignature => "Invalid signature".to_string(),
            ChainError::AttackDetected => "Attack detected".to_string(),
            ChainError::InvalidRangeProof => "Invalid range proof".to_string(),
            ChainError::InvalidHandshake => "Invalid handshake".to_string(),
            ChainError::PeerBanned => "Peer banned".to_string(),
            ChainError::PeerTimeout => "Peer timeout".to_string(),
            ChainError::MempoolOverflow => "Mempool overflow".to_string(),
            ChainError::InvalidKeyImage => "Invalid key image".to_string(),
            ChainError::DecompressionFailed => "Decompression failed".to_string(),
            ChainError::PackageDepthExceeded => "Package depth exceeded".to_string(),
            ChainError::InvalidCommitment => "Invalid commitment".to_string(),
            ChainError::SupplyMismatch => "Supply validation failed".to_string(),
            ChainError::InvalidEncryptionKey => "Invalid encryption key".to_string(),
            ChainError::InvalidTx(s) => "Invalid transaction: ".to_string().concat(s.as_str()),
            ChainError::InvalidBlock(s) => "Invalid block: ".to_string().concat(s.as_str()),
            ChainError::FilePermissionError(s) => "File permission error: ".to_string().concat(
                s.as_str(),
            ),
            ChainError::Other(s) => s.as_str().to_string(),
        }
    }
}

/// The verdict of a check, with errors taken by their view.
pub open spec fn verdict(r: Result<(), ChainError>) -> Result<(), Fault> {
    match r {
        Ok(_) => Ok(()),
        Err(e) => Err(e@),
    }
}

/// The first of `n` checks that fails, in their order.
pub open spec fn first_fault(check: spec_fn(int) -> Option<Fault>, n: nat) -> Option<Fault>
    decreases n,
{
    if n == 0 {
        None
    } else {
        match first_fault(check, (n - 1) as nat) {
            Some(e) => Some(e),
            None => check(n - 1),
        }
    }
}

/// What the first failed check says is what all of them say.
pub proof fn lemma_first_fault(check: spec_fn(int) -> Option<Fault>, i: nat, n: nat)
    requires
        i <= n,
        first_fault(check, i) is Some,
    ensures
        first_fault(check, n) == first_fault(check, i),
    decreases n,
{
    if i < n {
        lemma_first_fault(check, i, (n - 1) as nat);
    }
}

/// `InvalidBlock` with the message `why`.
pub fn invalid_block(why: &str) -> (e: ChainError)
    ensures
        e@ == Fault::InvalidBlock(why@),
{
    ChainError::InvalidBlock(why.to_string())
}

/// `InvalidTx` with the message `why`.
pub fn invalid_tx(why: &str) -> (e: ChainError)
    ensures
        e@ == Fault::InvalidTx(why@),
{
    ChainError::InvalidTx(why.to_string())
}

/// `Other` with the message `why`.
pub fn other(why: &str) -> (e: ChainError)
    ensures
        e@ == Fault::Other(why@),
{
    ChainError::Other(why.to_string())
}

/// The first failed check is the first: it fails, and none before it does; and
/// where there is none, none of the checks fails.
pub proof fn law_first_fault(check: spec_fn(int) -> Option<Fault>, n: nat) -> (i: int)
    ensures
        first_fault(check, n) is None ==> forall|j: int|
            0 <= j < n ==> #[trigger] check(j) is None,
        first_fault(check, n) is Some ==> {
            &&& 0 <= i < n
            &&& check(i) == first_fault(check, n)
            &&& forall|j: int| 0 <= j < i ==> #[trigger] check(j) is None
        },
    decreases n,
{
    if n == 0 {
        0
    } else {
        let i = law_first_fault(check, (n - 1) as nat);
        if first_fault(check, (n - 1) as nat) is Some {
            i
        } else {
            n - 1
        }
    }
}

/// Where none of several checks fails, there is no first that does.
pub proof fn lemma_no_fault(check: spec_fn(int) -> Option<Fault>, n: nat)
    requires
        forall|j: int| 0 <= j < n ==> #[trigger] check(j) is None,
    ensures
        first_fault(check, n) is None,
    decreases n,
{
    if n > 0 {
        lemma_no_fault(check, (n - 1) as nat);
        assert(check(n - 1) is None);
    }
}

} // verus!
