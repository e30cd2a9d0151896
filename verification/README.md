# atp-experiment

Encrypted transfer of a single file over a lossy link. TLS 1.3 negotiates the
keys on a control connection; the payload travels as sealed UDP datagrams that
carry RaptorQ symbols. Lost datagrams are not retransmitted: the sender sprays
fresh repair symbols until every block decodes, then the receiver checks the
file's SHA-256.

The library in `src/` holds the formats, the bookkeeping and the decisions of
both sides, and is verified with Verus. The program in `app/` does the I/O and
the floating-point arithmetic around it.

| module | what it has |
|---|---|
| `blocks` | how a file splits into blocks |
| `fec` | the RaptorQ encoder and decoder as the library sees them, the encoder cache |
| `aead`, `sealed`, `replay` | sealed datagrams and the anti-replay window |
| `datagram` | plaintext datagrams, and the choice between the two planes |
| `spray`, `udp` | filling batches with datagrams, cutting them up again |
| `sender`, `send` | the sender's state machine, its choices, handshake and feedback |
| `recv` | the receiver's state, handshake, acknowledgements and verdict |
| `transfer`, `lossless` | laws that join the two sides of a transfer |
| `rate` | decisions of the rate control and the pacing clock |
| `wire` | control frames and their length prefix |
| `tls`, `digest` | identities, pins, SHA-256 and hexadecimal text |
| `codec`, `text`, `error` | integers as bytes, messages, errors |

What is taken on trust of the outside crates stands in `aead`, `fec`, `digest`,
`text` and `tls`, each item with the claim it makes.
