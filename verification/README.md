# secret_tree

The secret tree and the sender ratchets of the MLS key schedule
(RFC 9420, sections 8 and 9), written in Verus and verified.

- `kdf`: `ExpandWithLabel` and `DeriveTreeSecret`, with the `KDFLabel` encoding.
- `ratchet`: the hash chain of one sender (`RatchetSecret`).
- `decryption`: the receiving ratchet with its window for out-of-order messages.
- `dual_use`: a ratchet that both sends and receives, with generation lanes.
- `tree`, `secret_tree`: tree sizes, leaf indices and the secret tree itself.
- `provider`: the trusted calls into `openmls_rust_crypto` (HKDF-Expand and
  random bytes); everything else is proved.
- `app/`: storing a dual-use ratchet's state as JSON with serde, on top of
  the verified `DualUseRatchet::to_state` and `DualUseRatchet::from_state`.

Run the tests with `cargo test`; verify with Verus on `src/lib.rs`.
