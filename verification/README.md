# Ferrous node

A proof-of-work node on the UTXO model. Its rules are stated as contracts and proved with
Verus; sockets, files, threads and the terminal stand around them.

## Layout

- `src/primitives`: encodings, hashes, numbers of any size, hex, clocks.
- `src/collections`: maps by bytes and by numbers.
- `src/consensus`: transactions, blocks, difficulty, Merkle roots, the ledger, and the chain
  with its reorganisations. `chain_model` says what adding a block does, `restart` and
  `soundness` what of a chain comes back from what was saved.
- `src/script`: the script engine and the hashes that signatures sign.
- `src/storage`: the stores over rows, with the journal of what has to be saved.
- `src/mining`: block templates and the search for nonces.
- `src/network`: messages, handshakes, synchronisation, relay, the mempool, limits on peers and
  recovery.
- `src/rpc`: authorization, reading of requests and of their parameters, and what the methods
  answer.
- `src/dashboard`: the numbers that the dashboard shows.
- `app`: the program: RandomX, sockets, threads, files, HTTP and the terminal.

## How it is put together

The library neither waits nor sends. Functions take the time, and the proof-of-work hash of a
header, as arguments; what is to be sent to peers comes back as a list. Each module has a
mathematical model, and its functions say that the value after a call is the model's value.
Proof functions named `lemma_..` state what holds across calls.

The stores keep the changes since they were last saved. The program writes these to files and
then counts them as saved; every function that changes a chain leaves to its caller what is
counted as saved.

What outside crates compute (SHA-256, RIPEMD-160, secp256k1, bincode, big integers, the LRU
cache, hex, JSON) is called through small functions whose contracts are taken on trust; each
says so in its comment.
