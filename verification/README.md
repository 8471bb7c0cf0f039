# rs_key

The logic of a hardware security key, as a verified library: ML-DSA signatures,
a key/value file system for flash, the management applet, the status light, and
a FIDO2 (CTAP2) and U2F authenticator. Verus proves every function against its
contract.

- `src/mldsa` – ML-DSA-44 and ML-DSA-65: sampling, the number-theoretic
  transform, rounding, encodings, key generation, signing and verification.
- `src/fs` – files by 16-bit identifier over a `Storage` backend, the presence
  cache and the metadata store.
- `src/mgmt.rs`, `src/led.rs`, `src/sdk.rs` – the management applet, the light
  patterns, and the types that the applets share.
- `src/fido` – the authenticator: key derivation, the seed at rest, the audit
  journal, large blobs, makeCredential, U2F, the vendor channel, passkeys, reset
  and the dispatch of messages.
- `src/crypto.rs`, `src/cbor.rs`, `src/wipe.rs`, `src/mldsa/xof.rs`,
  `src/fs/dynamic.rs` – the calls into other crates, each behind a function whose
  contract is believed.

What is sealed in a credential is left to a `Codec`, the touch to a
`UserPresence`, the random bytes to an `Rng`, and the commands beside those of the
library to `Commands`. The library keeps a ghost record of what each was asked and
what it answered; the contracts of the commands are stated over these records.

The tests are in `tests`.
