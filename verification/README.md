# zolal-core

Hides encrypted files inside ordinary carriers, in space that their viewers skip: after a JPEG's
end-of-image marker or in its APP15 segments, in an MP4 `free` box, in an unreferenced PDF object, in a
private frame of an MP3's ID3 tag. The library is written in Verus: its functions are proved against the
contracts they carry. Two things stand in no contract: what an `AtomicProgress` holds from one call to the
next, for other threads write to it, and in which order `Progress::update` is called. What sealing hands to
`update` is `sealed_so_far` (`src/crypto/stream.rs`), which has a contract and a law.

| Where | What |
| --- | --- |
| `src/ops.rs` | probing, hiding, revealing, cleaning |
| `src/ops_laws.rs` | what these promise together: what is hidden can be revealed, cleaning undoes hiding |
| `src/carrier/` | the containers; each `*_laws.rs` holds what embedding and stripping promise |
| `src/crypto/` | Argon2id, the envelope, chunked sealing and opening |
| `src/payload/` | manifest, file names, the bundle |
| `src/codes.rs`, `src/cli.rs` | what crosses a C interface, what a command line means |
| `app/` | files, temporary files, the command line and the C interface around the library |
| `tests/` | the library from outside, with independent parsers of the carriers |

Passphrases are plain text to the library; `app/` keeps them in `SecretString`. Keys, and the buffers in
which a chunk is sealed or opened, are overwritten when they are dropped (`src/crypto/secret.rs`). Plaintext
that is handed to or taken from a caller is the caller's.

What is believed and not proved is marked `external_body`, `assume_specification` or `uninterp`: the calls
into Argon2, XChaCha20-Poly1305 with STREAM, the operating system's random source, `zeroize`, and a few
string functions of the standard library.
