# marrow

The verified core of Marrow, an end-to-end encrypted messenger with a
post-quantum hybrid handshake, a double ratchet, and a blind relay that
forwards frames by public key.

## Layout

- `src/` — the library, verified with Verus.
  - `bytes` — little- and big-endian integer encodings and byte copying.
  - `text` — digits and numbers as text.
  - `primitives` — the calls into the outside cryptographic and encoding
    crates (X25519, Ed25519, ML-KEM-768, HKDF-SHA256, ChaCha20-Poly1305,
    Argon2id, BIP-39, hex, the OS random number generator). Every function
    there is trusted: its contract names what the outside function returns
    and adds only what that crate's source or documentation shows.
  - `identity` — identities and their password-encrypted vaults.
  - `mnemonic` — recovery phrases and the identities derived from them.
  - `handshake` — the X25519 + ML-KEM-768 handshake and its master secret.
  - `ratchet` — the double ratchet: sending and receiving chains, ratchet
    steps and skipped message keys.
  - `protocol` — wire frames and their byte format, with padding.
  - `codec` — length-prefixed request/response bodies and frame streams.
  - `relay` — routing decisions of the relay and its offline queue.
  - `node` — decisions of the peer-to-peer node and its waiting requests.
    The node's network side (the libp2p swarm that carries out these
    decisions) is not part of this crate.
  - `storage` — stored records and the layout of their keys.
  - `search` — search results built from stored fields.
  - `client` — what the desktop client computes around its commands.
- `tests/` — tests of the library on concrete values.
- `app/` — the relay program (QUIC, TLS, shared peer tables), the on-disk
  store (redb), the search index (tantivy), the TCP frame transport and the
  desktop client's commands, built on the library.

## What is proved

Each public function states what it returns or changes. Among the laws the
library proves: a vault opens with its password to the seed it was made from;
both sides of a handshake agree on the master secret (given that ML-KEM
decapsulation recovers the encapsulated secret); in a conversation, every
message sent is delivered to its plaintext, in any order and with the two
sides' sends and deliveries interleaved in any way, while the receiver has
room for the keys it skips; a failed decryption leaves the session as it was,
and a delivered message's key is never used again; a frame decodes to what was
encoded, also when padded or read from a stream, and bytes decode to a frame
exactly when they start with its bytes; relay length prefixes read
back as written; the offline queue stays bounded; message keys keep sessions
apart and sort by sequence number.
