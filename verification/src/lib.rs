//! The verified core of a Lyrion node: consensus rules, transaction and block
//! validation, the transaction pool, the wallet's accounting and the wire
//! formats, each stated as a contract over mathematical models.
pub mod address;
pub mod anon;
pub mod backup;
pub mod big;
pub mod bytes;
pub mod cache;
pub mod chain;
pub mod codec;
pub mod config;
pub mod consensus;
pub mod errors;
pub mod explorer;
pub mod gui;
pub mod hash;
pub mod hd;
pub mod history;
pub mod identity;
pub mod index;
pub mod journal;
pub mod keys;
pub mod ledger;
pub mod mempool;
pub mod miner;
pub mod net;
pub mod order;
pub mod orphans;
pub mod params;
pub mod pay;
pub mod peer_maps;
pub mod peers;
pub mod points;
pub mod pool_laws;
pub mod pool_maps;
pub mod pow;
pub mod rpc;
pub mod scan;
pub mod script;
pub mod secp;
pub mod state;
pub mod store;
pub mod target;
pub mod text;
pub mod tx;
pub mod utxo;
pub mod validate;
pub mod vault;
pub mod wallet;
pub mod wire;
