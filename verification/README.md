# merklechat

Key handling for an end-to-end encrypted chat, verified with Verus.

A user publishes 1091 keys as puzzles: each tag and AES-128 key is sealed
with AES-128-GCM under a key expanded from a 3-byte seed whose last byte has
two bits, so anyone can recover it by trying the 2^18 seeds. A sender picks
a puzzle by the sum of the message's first twelve bytes, recovers its key
and seals the message; the recipient looks the tag up in a key base and
opens it.

- `src/puzzle.rs`: seed expansion, puzzle generation and recovery, and the
  law that recovering a generated puzzle gives its key back.
- `src/key.rs`: keys and the key base (tags mapped to keys, no tag twice as
  a type invariant), with its laws.
- `src/message.rs`: key choice, encryption, fake encryption, decryption,
  the law that an encrypted message decrypts back with its key, and the law
  that keys generated into a key base serve the messages encrypted to their
  puzzles.
- `src/ids.rs`: fresh account identifiers.
- `src/primitives.rs`: the trusted calls into `aes-gcm`, `base64`, `rand`,
  `uuid` and `String::from_utf8`.
- `app/`: the WebAssembly bindings (key base in local storage as JSON) and
  the HTTP service with its PostgreSQL storage.
