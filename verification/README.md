# Lyrion

A node, a wallet and an explorer of the Lyrion network. What they decide and
compute is a library whose contracts are proved by Verus; files, sockets, the
database and the window are an ordinary program around it.

## The library (`src/`)

- Blocks and transactions: `tx`, `codec`, `hash`, `script`, `secp`, `address`,
  `target`, `params`, `points`, `big`, `bytes`, `text`.
- The rules: `validate`, `anon`, `consensus`, `ledger`.
- The chain: `chain`, `state`, `utxo`, `journal`, `orphans`, `store`, `keys`,
  `cache`, `pow`.
- The pool and mining: `mempool`, `pool_laws`, `pool_maps`, `miner`.
- The network: `wire`, `peers`, `peer_maps`, `net`, `identity`.
- The wallet: `hd`, `index`, `wallet`, `history`, `scan`, `pay`, `vault`, `gui`,
  `order`.
- Around the node: `rpc`, `explorer`, `config`, `backup`, `errors`.

Contracts speak of views: a transaction, a block, a chain, a pool or a database
is a plain mathematical value, and a function's `ensures` says which value comes
out of which. Properties that span functions stand beside them as proof
functions whose names begin with `law_`: that more work wins, that disconnecting
a block undoes connecting it, that no money is made, that nothing in the pool
depends on what is gone, that what is written reads back.

The database is a `store::Snapshot`, a log of writes in memory; the program
keeps it in step with the one on disk. Proof-of-work hashes, ring signatures and
batches of range proofs come from libraries that the program calls; the library
takes what they found as arguments.

## The program (`app/`)

`main.rs` reads the command line; the other files hold the node, the disk, the
network, mining, the servers and the window (feature `gui`).

## Tests (`tests/`)

They run the library on given values.
