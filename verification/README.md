# silicon_trust

Stateless, hardware-bound file encryption, verified with Verus.

A 256-bit key is derived from the machine's hardware identity (at least 7 of
9 identifiers: CPU, firmware, NIC, drive, TPM, GPU, memory modules, caches,
PCI devices), hashed per source with SHA3-512, sorted, and stretched with
Argon2id. Files are encrypted with XChaCha20-Poly1305 under a nonce taken from
the BLAKE3 hash of the plaintext.

Layout:

- `src/cipher.rs` — the blob format (`HEC\x01`, salt, nonce, sealed data),
  `encrypt_with_salt`, `decrypt`, `extract_salt`, and their laws.
- `src/fingerprint.rs` — `HardwareFingerprint`, the threshold, the key pool
  and `derive_master_key`, and their laws.
- `src/smbios.rs` — parsing of SMBIOS memory-device records.
- `src/sources.rs` — what each hardware source makes of the raw values read
  from the machine.
- `src/order.rs` — lexicographic orders (total-order proofs), sorting, dedup.
- `src/text.rs` — joining, decimal/hex rendering, trimming, character tests.
- `src/outside.rs` — the trusted items: calls into the outside crates and std.
- `app/` — the `stcs` command line and the Windows collectors.
- `tests/` — tests on concrete values.
