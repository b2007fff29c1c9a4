# msmp

A small messaging protocol for nodes on a shared serial line, with its proofs.

A frame is a two-byte header and a body of up to 63 bytes. The first header
byte holds the destination address (high nibble) and the source address (low
nibble); the second holds the message type (two high bits) and the body length
(six low bits). A 0x00 byte inside a body marks a resynchronisation point.

- `src/packet.rs` reads and writes frames (`PacketReader`, `PacketWriter`).
- `src/protocol.rs` reassembles frames from a byte stream (`ProtocolReader`),
  with the stream traits and streams over slices and channels.
- `src/service.rs` lends buffers from a pool, queues buffers for sending in
  registration order, and relays frames (`Service`).
- `src/frame.rs` builds a frame to send from two addresses and a hex body.
- `src/device.rs` decides what a received frame means to the devices on the
  bus and whether it is forwarded.
- `app/` is the command-line tool for a serial port, the awaited streams, and
  the awaited service loop built from the service's steps.

Every function in `src/` that Verus verifies carries a contract. The calls
into std and into the `hex` crate go through a few small wrappers marked
`external_body`, whose contracts are trusted rather than proved: `format!`,
`hex::decode`, `str::from_utf8`, and a byte channel's `try_recv` and `send`.

A read step of `ProtocolReader` is stated over what the stream's own `reads`
relation says of its answer; for a byte slice that relation is exact, so
reading from a slice is determined (`slice_step`, `slice_read`,
`lemma_slice_step`, `lemma_slice_read`), and `Service::put_received_data`
states the state reached after taking exactly the data given. A stream that
would block counts as giving no bytes; one that fails ends the step with its
error. The laws of the library (header fields read back as written, a clean
frame received whole, resync on a sync byte, first-in first-out sending,
buffers keeping their contents, a lent slot not lent twice) are proof
functions beside the code they speak of.
