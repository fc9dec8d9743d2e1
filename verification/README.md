# mdsevent_tcp_bridge

A bridge that forwards MDSplus UDP multicast events over a ZeroMQ publish/subscribe
overlay and rebroadcasts them on the far side. The decisions are a library verified with
Verus; the program around it does the I/O.

- `src/wire.rs` — the event datagram (`be32 name_len, name, be32 payload_len, payload`):
  decoding, encoding, and their round trip.
- `src/dedupe.rs` — the cache of seen event ids (time-to-live and capacity).
- `src/multicast.rs` — the `mdsevent_address` setting and the event-to-group mapping.
- `src/text.rs` — characters of a string, trimming and splitting.
- `src/overlay.rs` — overlay metadata, topics and frame checks.
- `src/config.rs` — command-line options and the bridge configuration.
- `src/bridge.rs` — the bridge's steps: taking in UDP datagrams and overlay messages,
  and relaying.
- `app/` — the program: sockets, JSON metadata, the poll loop, and the in-process
  overlay harness (run when the program is started as `inproc_harness`).

Times given to the library are monotonic clock readings in nanoseconds.
