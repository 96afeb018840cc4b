# interval_psi

Verified building blocks for private intersection of integer intervals.

- `src/dh.rs`, `src/psi.rs`: set intersection by commutative blinding modulo
  the safe prime `P`. Values are hashed (SHA-256) to primitive roots, blinded
  with each party's secret and then with the peer's; the common elements give
  the reported interval.
- `src/ore.rs`: order-revealing encryption of 32-bit values with an
  HMAC-SHA256 pseudorandom function, ciphertext comparison and the encrypted
  intersection of intervals.
- `src/fhe.rs`: the plain parties and the decision on decrypted bounds of the
  homomorphic intersection; the `tfhe` work itself stands in `app/`.
- `src/bytes.rs`, `src/csv.rs`: big-endian encodings and CSV rows.
- `src/crypto.rs`: the trusted wrappers around `sha2` and `hmac`.

`app/main.rs` loads the interval files, times the three experiments and
writes the CSV files.
