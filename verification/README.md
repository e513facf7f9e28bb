# mqtt

MQTT 3.1.1 at quality of service 0 and 1, written in Verus: the control packets
and their form on the wire, and what the two ends of a connection send and make
of what they hear. One PUBLISH is one message, with its topic beside it.

The library does no I/O. Whoever holds the socket writes the bytes it is given,
reads the next packet, and hands it in.

- `src/wire.rs`: integers, length-prefixed fields, the remaining length.
- `src/packet.rs`: the packets, `encode`, `decode` and `read`.
- `src/reader.rs`: a packet as it comes in, a few bytes at a time.
- `src/client.rs`, `src/session.rs`: the client's side and the broker's side.
- `src/transport.rs`: a broker, a topic, and what is presented to connect.
- `src/show.rs`, `src/text.rs`, `src/error.rs`, `src/step.rs`: packets as text,
  numbers as text, failures, and what is handed to the holder of the socket.
- `src/laws.rs`, `src/exchange.rs`: what holds of packets and their bytes, and of
  the two ends taken together.
- `tests/`: the library run on given values.
- `app/`: the transport over TCP. It needs the `transport` crate of its estate,
  which gives the sockets, the failures of I/O and the trait to implement.
