# voicechat

Encrypted voice chat for groups of up to five, peer to peer, without a server. The logic is a
library that is verified with Verus; a thin program around it moves packets, samples and time.

## Layout

- `src/` is the library.
  - `net`, `packet`: packet headers, payloads, and whole packets that are encrypted and
    authenticated.
  - `crypto`: XChaCha20-Poly1305 with derived nonces, the key from the passphrase, and the sliding
    window that turns replayed audio down.
  - `key_exchange`: X25519 and HKDF, for a key per pair of peers.
  - `peer`, `session`, `outgoing`: the peers of a session, what a node does with a packet that comes
    in, and what it sends of its own accord.
  - `jitter`, `latency`, `dsp`, `vad`, `input`, `audio`, `codec`: the jitter buffer, round-trip
    times, framing, voice activity, the input gate, and the decisions around audio devices.
  - `events`, `handshake`, `counters`, `laws`: what holds of a session as a whole.
  - `addr`, `bytes`, `error`, `find`: addresses, big-endian numbers, errors, and searching.
- `tests/` runs the library.
- `app/` is the program: the command line and a window, the UDP socket, audio devices, the Opus
  codec, RNNoise, mixing, and port forwarding.

## Trusted

The contracts of a few small functions are believed, not proved. They call Argon2id,
XChaCha20-Poly1305, X25519, HKDF-SHA256, the random number generator and the cloning of a shared
pointer. Each says above it what is believed. Of ciphers and hashes that is that the result depends on the
arguments alone, that what was encrypted decrypts to what it was, that what decrypts was encrypted
under the same key, nonce and header, and that both sides of a key exchange get the same secret.
That nobody without the key can make a packet that passes is cryptography, and is not claimed.

## Packets

| Offset | Size | Field |
|---|---|---|
| 0 | 1 | type |
| 1 | 1 | id of the sender |
| 2 | 2 | sequence number, big-endian |
| 4 | 4 | counter, big-endian |
| 8 | n | encrypted payload |
| 8 + n | 16 | authentication tag over header and payload |

The nonce is not sent. It is made of the session id, the sender's id, a direction, the sequence
number and the counter. All packets of a node under the key from the passphrase take their
counters from one counter, and those under the key of a pair from one of the pair. So in a session
no nonce is used twice under a key by one node, unless the keys of two pairs, or of a pair and of
the passphrase, happen to be the same. Of different nodes this is not claimed: before a node has an
id, its JOIN has the id 0, a session id of zeros and a counter from 0 on, which under the same
passphrase are also those of the JOINs of others and of the host's first lists of peers.
