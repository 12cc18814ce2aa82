# Liteway

A mesh VPN at the network layer. Nothing of a packet is in plaintext on the wire, and every
key agreement and signature combines a classical scheme with a post-quantum one.

## Layout

`src/` is the library: the protocol and the rules of the mesh, with contracts that Verus proves.

| Module | What it holds |
|--------|---------------|
| `bytes`, `text`, `hex_serde` | big-endian numbers, length-prefixed fields, hexadecimal and JSON text |
| `addr`, `net`, `route` | addresses, interfaces, and which routes a certificate allows |
| `clock`, `config` | points in time, and the configuration of a node |
| `crypto` | X25519 with ML-KEM-768, Ed25519 with ML-DSA-65, BLAKE3, ChaCha20-Poly1305 |
| `cert` | certificates: layout, signing, verification |
| `packet` | the masked header, and the packets of a session |
| `handshake` | the two signed messages from which both sides derive a session key |
| `frag` | splitting a message into datagrams and putting it together again |
| `replay` | the window of sequence numbers that were seen |
| `mesh` | the state of a node, and what it does with what it receives and sends |

The calls into other crates stand behind small functions marked `external_body`, each with
a comment that says what is claimed of the call. Functions named `law_` are proofs of what
holds between several operations.

`app/` is the program around the library: the daemon (`litewayd`), the tool for
certificates, files, sockets, the TUN device and the operating systems.

`tests/` runs the library, with the real cryptography.
