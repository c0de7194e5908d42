# triblespace_net

The protocol rules of a content-addressed blob network, written in Verus and
proved against their contracts: who is published as a provider and when, what a
directory node keeps, how a collection is repaired from a peer, what of it is
disclosed to whom, how an exact blob is exchanged between two parties that know
its handle, and how a node reports its health.

- `src/` is the library. Its functions compute; they take plain values and give
  plain values back. Contracts speak of maps, sets and sequences. Functions whose
  names begin with `law_` state what holds of the library as a whole.
- `tests/` runs the library on concrete values.
- `app/` is ordinary Rust around it: streams, files, clocks, logs.

What the proofs rest on besides Verus: `src/hash.rs` names the results of BLAKE3,
`src/hex_text.rs` states what the hexadecimal codec does, `src/leech.rs` names the
public key of an Ed25519 secret, and `src/probe.rs` states when bytes are UTF-8.

Merkle roots, signatures and the meaning of capability definitions are values
that the library is given. What it concludes from them is proved.
