# mqtt_frame

A sans-I/O codec for MQTT 3.1.1 and 5.0 frames, verified with Verus.

- `src/wire.rs` states the wire format over byte sequences: what the front of
  a receive buffer decodes to (`spec_decode`) and what a packet encodes to
  (`spec_encode`).
- `src/codec.rs` holds `MqttCodec`, whose `decode` and `encode` are proved to
  follow that statement, and `parse_properties`.
- `src/utils.rs` holds the variable byte integer and a byte cursor.
- `src/laws.rs` proves what holds of the two directions together: encoded
  frames decode back, a frame decodes the same whatever follows it, a
  decoded packet has the type its header names, and complete property
  encodings read back in order, block after block, wherever in the buffer
  they stand.
- `src/buffers.rs` gives contracts to the calls into `bytes`, and `src/text.rs`
  to the standard library's lossy UTF-8 conversion; it also writes the
  decimal digits of error messages.
- `app/` implements `tokio_util`'s `Decoder` and `Encoder` on top of the codec,
  and the error type with `thiserror`.
