# cryptman

A file encryption tool: Argon2id turns a password into a key, and AES-256-GCM
or XChaCha20Poly1305 encrypts the file, in 512 KiB chunks for large files.

The library under `src/` is checked by Verus:

- `file.rs` – the encrypted file format (header, chunk frames, chunk counts),
  with proofs that what is written reads back unchanged, that the chunks
  sealed by the workers and put back in order make a file that decrypts to
  the plaintext, and that a chunk that fails to open cuts the output at a
  chunk boundary before it;
- `crypto.rs` – ciphers, keys and nonces, over the `aes-gcm` and
  `chacha20poly1305` crates;
- `kdf.rs` – Argon2id settings and key derivation, over the `argon2` crate;
- `pipeline.rs` – the reorder buffer that puts chunks finished out of order
  by worker threads back in order (with a proof that it does), and the sizing
  of the worker pipeline;
- `cli.rs`, `password.rs` – argument checks and password sources;
- `memory.rs` – secret buffers that are zeroized on drop, random bytes;
- `error.rs`, `text.rs` – errors and their messages.

`app/` is the command-line program around it: argument parsing, files and
standard streams, worker threads, progress bars, memory locking.
