# capglyph

Invisible structural watermarks and credential tokens for images, with the
logic written in Verus and proved against its contracts.

## Layout

- `src/` — the verified library.
  - `framing` (with `framing/cbor` and `framing/auth`): the sealed frame — a
    five-field CBOR header and payload followed by an HMAC-SHA256 tag; sealing,
    opening and validation, with the laws that opening a sealed frame gives the
    payload back and that an opened frame is authentic.
  - `ecc` (with `ecc/rs`), `bch`, `bits`, `word_bits`, `interleave`: the coding
    stack — 8× repetition, binary BCH block codes, Reed–Solomon parity and byte
    interleaving — with round-trip and error-correction laws.
  - `keying`, `crypto`, `octets`: key derivation and the trusted wrappers over
    `hmac`, `sha2`, `chacha20poly1305`, `base64`, `hex` and `rand`.
  - `carrier_integration`, `pointer`, `models`, `service`: credential tokens,
    online/offline pointer payloads, token and capability ids, and the
    credential state machine (issue, verify, consume, revoke, object access).
  - `prng`, `raster`, `spread_spectrum`, `learned`, `placement`, `carrier`,
    `ladder`: block and band selection, line rasterisation, recipient-id bit
    codecs and the carrier/placement tables.
  - `conformance`: checking one framing test vector.
  - `cli`, `geometry`, `registration`, `c2pa`, `text`: small shared types and
    helpers.
- `app/` — the command-line program around the library: image and file I/O,
  the floating-point signal code (DCT, Haar DWT, alpha statistics, soft
  decisions, spread-spectrum coefficients) and the conformance runner.
- `tests/` — executable tests of the library.
