# rtp

The RTP packet header (RFC 3550) with its header extensions (RFC 8285
one-byte and two-byte forms, and the single RFC 3550 extension), written in
Verus.

- `src/header/mod.rs`: the `Header`, `Extension` and `ExtensionProfile` types
  and the size computation.
- `src/header/model.rs`: the abstract values of headers and extensions.
- `src/header/wire.rs`: the wire format as spec functions: the bytes a header
  marshals to, and what unmarshalling reads back.
- `src/header/marshal.rs`, `src/header/unmarshal.rs`: marshalling and
  unmarshalling, proved against the wire format.
- `src/header/extensions.rs`: setting, getting, listing and deleting
  extensions by id.
- `src/header/roundtrip.rs`, `src/header/laws.rs`: properties across
  operations, among them that unmarshalling the marshaled bytes of a header
  that fits the wire format gives that header back, and that marshalling the
  header read from a packet without an extension block gives the packet
  back.
- `src/endian.rs`: big-endian integer reads and writes through `byteorder`.
- `src/errors.rs`: the error type.
