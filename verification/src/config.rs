//! The configuration of a node: what follows from what was written down.
use crate::bytes::read32;
use crate::secp;
use crate::text;
use crate::text::{decode_base64, decode_hex, encode_base64};
use std::collections::HashMap;
use vstd::prelude::*;

verus! {

broadcast use vstd::std_specs::hash::group_hash_axioms;

/// The largest number of threads for the proof of work.
pub const MAX_POW_THREADS: usize = 64;

/// The configuration of a node.
pub struct AppConfig {
    /// Whether the node is one of the main network.
    pub mainnet: bool,
    /// The key that mined blocks pay to, in base 64.
    pub coinbase_sk: String,
    /// Where the database is.
    pub db_path: String,
    /// The port for peers.
    pub p2p_port: u16,
    /// The port for requests.
    pub rpc_port: u16,
    /// How many peers are allowed.
    pub max_peers: usize,
    /// How large the pool may get.
    pub max_mempool_size: usize,
    /// The peers that are known from the start.
    pub seed_nodes: Vec<String>,
    /// Where the certificate is.
    pub tls_cert: String,
    /// Where the certificate's key is.
    pub tls_key: String,
    /// Where the certificate of the authority is.
    pub ca_cert: String,
    /// How many blocks a reorganization may disconnect.
    pub reorg_max_depth: usize,
    /// Where the key that signs backups is.
    pub backup_signing_key: String,
    /// Where the key of the node is.
    pub signing_key_path: String,
    /// How long a transaction stays in the pool, in milliseconds.
    pub tx_expiration_ms: u128,
    /// How much is logged.
    pub log_level: String,
    /// How many threads may mine.
    pub max_threads: usize,
    /// How many threads do the proof of work.
    pub num_randomx_threads: usize,
    /// Whether large pages are used.
    pub enable_huge_pages: bool,
    /// The secret that requests are signed with.
    pub rpc_jwt_secret: String,
    /// The bytes of the key that mined blocks pay to.
    pub coinbase_sk_bytes: [u8; 32],
    /// The hashes that blocks at given heights must have.
    pub checkpoint_hashes: HashMap<usize, [u8; 32]>,
    /// The same, as they were written down.
    pub checkpoints: Vec<(usize, String)>,
}

/// Why a configuration is refused.
#[derive(Debug, Clone, Copy, PartialEq, Eq, Structural)]
pub enum ConfigError {
    /// The key that mined blocks pay to is not in base 64.
    InvalidBase64,
    /// It does not have 32 bytes.
    InvalidKeyLength,
    /// The hash for a height is not one in hexadecimal.
    InvalidCheckpoint(usize),
    /// A port is zero.
    InvalidPort,
    /// There is no secret for requests.
    MissingSecret,
    /// No peer is known from the start.
    MissingSeeds,
}

impl ConfigError {
    /// What is said of the error.
    pub fn message(&self) -> (r: String)
        ensures
            r@ == match self {
                ConfigError::InvalidBase64 => "Invalid base64 coinbase_sk"@,
                ConfigError::InvalidKeyLength => "coinbase_sk must be 32 bytes"@,
                ConfigError::InvalidCheckpoint(_) => "Invalid checkpoint hash"@,
                ConfigError::InvalidPort => "Ports must be > 0"@,
                ConfigError::MissingSecret => "RPC JWT secret required"@,
                ConfigError::MissingSeeds => "At least one seed node required"@,
            },
    {
        match self {
            ConfigError::InvalidBase64 => "Invalid base64 coinbase_sk".to_string(),
            ConfigError::InvalidKeyLength => "coinbase_sk must be 32 bytes".to_string(),
            ConfigError::InvalidCheckpoint(_) => "Invalid checkpoint hash".to_string(),
            ConfigError::InvalidPort => "Ports must be > 0".to_string(),
            ConfigError::MissingSecret => "RPC JWT secret required".to_string(),
            ConfigError::MissingSeeds => "At least one seed node required".to_string(),
        }
    }
}

/// The hash that a text writes in hexadecimal.
pub open spec fn hash_of_text(t: Seq<char>) -> Option<Seq<u8>> {
    match text::hex_bytes(t) {
        None => None,
        Some(b) => if b.len() == 32 {
            Some(b)
        } else {
            None
        },
    }
}

/// The hash that a text writes in hexadecimal.
pub fn parse_hash(t: &str) -> (r: Option<[u8; 32]>)
    ensures
        secp::opt_array(r) == hash_of_text(t@),
{
    match decode_hex(t) {
        None => None,
        Some(b) => {
            if b.len() != 32 {
                return None;
            }
            let h = read32(b.as_slice(), 0);
            assert(h@ =~= b@);
            Some(h)
        },
    }
}

/// What a list of checkpoints says.
pub open spec fn checkpoints_view(v: Seq<(usize, String)>) -> Seq<(usize, Seq<char>)> {
    v.map_values(|c: (usize, String)| (c.0, c.1@))
}

/// What a map of checkpoints says.
pub open spec fn hashes_view(m: Map<usize, [u8; 32]>) -> Map<usize, Seq<u8>> {
    m.map_values(|h: [u8; 32]| h@)
}

/// The hashes of the first `n` checkpoints; a later one for the same height
/// counts.
pub open spec fn checkpoints_upto(s: Seq<(usize, Seq<char>)>, n: nat) -> Result<
    Map<usize, Seq<u8>>,
    ConfigError,
>
    decreases n,
{
    if n == 0 {
        Ok(Map::empty())
    } else {
        match checkpoints_upto(s, (n - 1) as nat) {
            Err(e) => Err(e),
            Ok(m) => match hash_of_text(s[n - 1].1) {
                None => Err(ConfigError::InvalidCheckpoint(s[n - 1].0)),
                Some(h) => Ok(m.insert(s[n - 1].0, h)),
            },
        }
    }
}

proof fn lemma_checkpoints_fail(s: Seq<(usize, Seq<char>)>, i: nat, n: nat)
    requires
        i <= n,
        checkpoints_upto(s, i) is Err,
    ensures
        checkpoints_upto(s, n) == checkpoints_upto(s, i),
    decreases n,
{
    if i < n {
        lemma_checkpoints_fail(s, i, (n - 1) as nat);
    }
}

/// The hashes that blocks at given heights must have.
pub fn read_checkpoints(v: &Vec<(usize, String)>) -> (r: Result<
    HashMap<usize, [u8; 32]>,
    ConfigError,
>)
    ensures
        (match r {
            Ok(m) => Ok::<Map<usize, Seq<u8>>, ConfigError>(hashes_view(m@)),
            Err(e) => Err(e),
        }) == checkpoints_upto(checkpoints_view(v@), v@.len()),
{
    let ghost s = checkpoints_view(v@);
    let mut m: HashMap<usize, [u8; 32]> = HashMap::new();
    let mut i: usize = 0;
    assert(hashes_view(m@) =~= Map::<usize, Seq<u8>>::empty());
    while i < v.len()
        invariant
            i <= v@.len(),
            s == checkpoints_view(v@),
            checkpoints_upto(s, i as nat) == Ok::<Map<usize, Seq<u8>>, ConfigError>(
                hashes_view(m@),
            ),
        decreases v@.len() - i,
    {
        let height: usize = v[i].0;
        assert(s[i as int] == (v@[i as int].0, v@[i as int].1@));
        match parse_hash(v[i].1.as_str()) {
            None => {
                proof {
                    lemma_checkpoints_fail(s, (i + 1) as nat, s.len());
                }
                return Err(ConfigError::InvalidCheckpoint(height));
            },
            Some(h) => {
                let ghost before = hashes_view(m@);
                m.insert(height, h);
                assert(hashes_view(m@) =~= before.insert(height, h@));
            },
        }
        i += 1;
    }
    Ok(m)
}

/// Why a configuration is refused, if it is, given the secret for requests
/// that is made where none was written down.
pub open spec fn config_fault(raw: AppConfig, made: Seq<char>) -> Option<ConfigError> {
    let key = text::base64_bytes(raw.coinbase_sk@);
    let hashes = checkpoints_upto(checkpoints_view(raw.checkpoints@), raw.checkpoints@.len());
    if key is None {
        Some(ConfigError::InvalidBase64)
    } else if key->0.len() != 32 {
        Some(ConfigError::InvalidKeyLength)
    } else if hashes is Err {
        Some(hashes->Err_0)
    } else if raw.p2p_port == 0 || raw.rpc_port == 0 {
        Some(ConfigError::InvalidPort)
    } else if raw.rpc_jwt_secret@.len() == 0 && made.len() == 0 {
        Some(ConfigError::MissingSecret)
    } else if raw.seed_nodes@.len() == 0 {
        Some(ConfigError::MissingSeeds)
    } else {
        None
    }
}

impl AppConfig {
    /// The configuration that follows from what was written down: the key and
    /// the checkpoints are read, a secret for requests is made out of random
    /// bytes where none was written down, and there are as many threads for
    /// the proof of work as cores where no number was.
    pub fn load(raw: AppConfig, random: &[u8; 64], cores: usize) -> (r: Result<Self, ConfigError>)
        ensures
            match r {
                Err(e) => config_fault(raw, text::base64_text(random@)) == Some(e),
                Ok(c) => {
                    &&& config_fault(raw, text::base64_text(random@)) is None
                    &&& Some(c.coinbase_sk_bytes@) == text::base64_bytes(raw.coinbase_sk@)
                    &&& checkpoints_upto(
                        checkpoints_view(raw.checkpoints@),
                        raw.checkpoints@.len(),
                    ) == Ok::<Map<usize, Seq<u8>>, ConfigError>(
                        hashes_view(c.checkpoint_hashes@),
                    )
                    &&& c.rpc_jwt_secret@ == if raw.rpc_jwt_secret@.len() == 0 {
                        text::base64_text(random@)
                    } else {
                        raw.rpc_jwt_secret@
                    }
                    &&& c.num_randomx_threads == if raw.num_randomx_threads == 0 {
                        if cores < MAX_POW_THREADS {
                            cores
                        } else {
                            MAX_POW_THREADS
                        }
                    } else {
                        raw.num_randomx_threads
                    }
                    &&& c == (AppConfig {
                        coinbase_sk_bytes: c.coinbase_sk_bytes,
                        checkpoint_hashes: c.checkpoint_hashes,
                        rpc_jwt_secret: c.rpc_jwt_secret,
                        num_randomx_threads: c.num_randomx_threads,
                        ..raw
                    })
                },
            },
    {
        let key = match decode_base64(raw.coinbase_sk.as_str()) {
            Some(k) => k,
            None => {
                return Err(ConfigError::InvalidBase64);
            },
        };
        if key.len() != 32 {
            return Err(ConfigError::InvalidKeyLength);
        }
        let coinbase_sk_bytes = read32(key.as_slice(), 0);
        assert(coinbase_sk_bytes@ =~= key@);
        let checkpoint_hashes = match read_checkpoints(&raw.checkpoints) {
            Ok(m) => m,
            Err(e) => {
                return Err(e);
            },
        };
        let mut config = raw;
        config.coinbase_sk_bytes = coinbase_sk_bytes;
        config.checkpoint_hashes = checkpoint_hashes;
        if config.rpc_jwt_secret.as_str().is_empty() {
            config.rpc_jwt_secret = encode_base64(random.as_slice());
        }
        if config.p2p_port == 0 || config.rpc_port == 0 {
            return Err(ConfigError::InvalidPort);
        }
        if config.rpc_jwt_secret.as_str().is_empty() {
            return Err(ConfigError::MissingSecret);
        }
        if config.num_randomx_threads == 0 {
            config.num_randomx_threads =
            if cores < MAX_POW_THREADS {
                cores
            } else {
                MAX_POW_THREADS
            };
        }
        if config.seed_nodes.len() == 0 {
            return Err(ConfigError::MissingSeeds);
        }
        Ok(config)
    }

    /// Whether checkpoints are in force on the main network.
    pub fn has_mainnet_checkpoints(&self) -> (r: bool)
        ensures
            r == (self.mainnet && self.checkpoint_hashes@.dom().len() > 0),
    {
        self.mainnet && self.checkpoint_hashes.len() > 0
    }
}

} // verus!
