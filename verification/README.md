# bedrock

The core of a Minecraft: Bedrock Edition server, written in Verus: each module's
behaviour is stated in `requires` / `ensures` contracts over mathematical models
(`Seq`, `Map`, `int`) and proved.

- `src/raknet/`: the RakNet transport, sans-io: datagrams, frames, splitting and
  reassembly, ordering, acknowledgement and retransmission, sessions, and the
  listener that answers offline pings and connection requests.
- `src/protocol/`: the game packet codec: byte reader and writer, batches, login,
  handshake, play status, resource packs, chunks and the world description.
- `src/crypto/`: the session cipher (AES-256-CFB8 with a SHA-256 checksum per
  packet), key agreement, and identity token verification.
- `src/world/`, `src/blocks.rs`: the block vocabulary and the in-memory world.
- `src/server/`: what each packet asks of the server, streaming the world around a
  player, and the server state that carries both out.
- `app/`: the binary: the UDP socket, the clock, fetching the issuer's keys over
  HTTPS, reporting, and turning a client's float positions into blocks.

Calls into `aes`, `cfb8`, `ring`, `subtle`, `base64` and `serde_json` stand behind
small trusted wrappers whose contracts say what those crates document; everything
around them is verified. `tests/` runs the library with the real crates linked.

## Known gaps

- After a login verifies, the server agrees a session key with the key the issuer
  signed, but it sends no `ServerToClientHandshake`: that token is signed with the
  server's own ES384 key, which no item of this crate provides. A real client therefore
  never learns the server's half of the agreement and cannot switch to the encrypted
  stream.
- Compression is never negotiated: settings always answer "uncompressed", and a batch
  is read without a compression method byte.
- JSON documents (the identity, the token's header and claims, the key set) are read
  member by member from a parsed value: a member given twice takes its last value.
