# zelle

A small ledger node: ring-signed transactions to one-time addresses, a
proof-of-work chain with a mempool, a Bloom filter that keeps a wallet from
being credited twice for one payment, password-sealed wallets, and off-chain
payment channels.

- `src/` is the library, written in Verus and verified: `encoding` (bytes,
  UTF-8, hexadecimal), `crypto` (BLAKE3, Ed25519, ChaCha20-Poly1305 and the
  operating system's randomness, behind trusted wrappers), `transaction`,
  `blockchain`, `bloom`, `wallet`, `channel` and `message`.
- `app/` is the node program: the terminal, the wallet file on disk, the JSON
  forms of the library's types, the balance arithmetic (floating point), and
  the P2P transport.
- `tests/` runs the library on concrete values.

Amounts travel as 64-bit floats; the library carries their bit patterns and
never does arithmetic on them.
