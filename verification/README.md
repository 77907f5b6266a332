# SHRINCS, verified

SHRINCS is a hash-based post-quantum signature scheme with two kinds of
signatures: short *stateful* ones from an unbalanced XMSS tree (UXMSS) of
WOTS+C one-time keys, and *stateless* ones made of a PORS+FP few-time
signature under a hypertree of XMSS layers. This crate implements it in
Verus: every function of the library carries a contract over mathematical
models of its bytes, and Verus proves the code against it.

SHA-256 is handed to every hashing function as a function from bytes to a
32-byte digest; the contracts speak of the digest that function gives.

## Layout

* `src/address.rs` — the 32-byte address and its field setters.
* `src/constants.rs` — the three parameter sets (`SHRINCS_L`, `SHRINCS_B`,
  `SHRINCS_B32`) and the sizes derived from them.
* `src/hash.rs` — hash contexts, finalization and the `prf_msg` stream.
* `src/wots_c.rs`, `src/xmss.rs`, `src/uxmss.rs` — WOTS+C, XMSS and UXMSS.
* `src/pors_fp.rs` — PORS+FP: index derivation, the octopus path, signing
  (with and without a cache of checkpoint subtree roots) and key recovery.
* `src/pors_recovery.rs` — why a PORS+FP signature gives back the signing
  tree's key, what key recovery reads, and when an octopus path exists.
* `src/shrincs.rs` — key generation, stateful and stateless signing,
  verification.
* `src/rng.rs` — the deterministic AES-256-CTR byte generator.
* `src/wasm.rs` — the byte-level API behind the JavaScript bindings.
* `src/hexargs.rs` — the hex arguments of the on-chain benchmark.
* `app/` — SHA-256, the JavaScript bindings, the process-wide generator and
  the benchmark programs, around the library.

## Main proved properties

* Every stateful signature (signature numbers `1 ..= hsf + 1`) and every
  stateless signature that a key restored from any seed makes verifies
  under its public key, and `verify` tells the two kinds apart by length.
* WOTS+C, XMSS and UXMSS: the public key or root recovered from a signature
  is the one the secret key defines.
* PORS+FP: a signature read back under the address it was made with gives
  the signing tree's compressed node 0 at the level where the octopus walk of
  its indices ends (the root, unless all revealed leaves share a lower
  leftmost node).
* Cached PORS+FP tree hashing, authentication paths and signing give
  exactly what the uncached functions give when the cache holds the
  checkpoint roots built under the same address prefix: the all-zero layer
  and tree address that stateless signing uses.
* Stateless signing with a key's own prepared key (its PORS+FP checkpoint
  roots) gives the same signature, byte for byte, as signing without it.
  A prepared key is serialized as the magic bytes `SHPK`, one byte naming
  the parameter set, and the `2^(b - checkpoint)` roots of 16 bytes: 8197
  bytes for every parameter set. Reading one back refuses any other header
  or length.
* Stateful signing from a fresh state, over any sequence of calls, uses the
  signature numbers `1, 2, 3, ...` in turn, each at most once, and refuses
  every call after number `hsf + 1`.
* Stateless verification does not read the randomizers of the hypertree's
  WOTS+C signatures.
* Keys, states and hex strings read back as written.
