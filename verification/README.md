# minipacked

Packs a file or a directory into a `.minipacked` container: a tar stream,
compressed with zstd and encrypted in 64 KiB chunks with XChaCha20-Poly1305
(STREAM construction, key derived from a password with Argon2id), behind a
fixed 61-byte header.

- `src/` is the verified library: header encoding and parsing, the chunked
  encryption stream, argument parsing, prompt rules, the checks on archive
  entry paths, and the laws that tie them together (header round trip, stream
  round trip, paths never leaving the working directory, the order of
  command-line arguments, the key an archive opens with).
- `app/` is the command-line shell: files, terminal, tar, zstd and progress
  display. It calls the library for every decision.
- `tests/` runs the library on concrete inputs.
