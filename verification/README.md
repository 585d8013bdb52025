# cuts_core

A verified library for `.cuts` archives: a folder's files, each
compressed with LZ4 and encrypted with ChaCha20-Poly1305, followed by an
encrypted index and preceded by a fixed header.

Layout of `src/`:

- `types.rs`: header, index records, flags, errors.
- `format.rs`: byte layout of the header and of index records, with
  their parsers and the proofs that parsing gives back what was encoded.
- `crypto.rs`: Argon2id key derivation and authenticated encryption.
- `codec.rs`: BLAKE3 digests and LZ4 frames.
- `reader.rs` / `writer.rs`: reading and writing an archive held in
  memory.
- `archive.rs`: packing a set of files into a complete archive.
- `laws.rs`: what reading gives back of what writing wrote.
- `paths.rs`: turning an asset id into a path below an output folder.

`app/` holds the command-line front end (`pack` and `unpack`), which does
the file-system and terminal work around the library.
