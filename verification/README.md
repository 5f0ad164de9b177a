# toydns

A tiny DNS message library, verified with Verus.

- `src/bpb.rs`: `BytePacketBuffer`, a 512-byte message buffer with a cursor;
  reading and writing big-endian integers and domain names, and the model of
  what a sequence of writes leaves in the buffer.
- `src/name.rs`: the wire format of domain names (labels, compression
  pointers), with the proofs that a written name reads back as itself and that
  a name refused for its pointers would never finish being read.
- `src/dns/`: the header, question, record and packet formats; each reader and
  writer is specified over the bytes, and a packet written in full reads back
  as the same packet.
- `src/server.rs`: what a forwarding server sends upstream and what it answers
  its client.
- `app/`: the program around the library: reading a captured packet from a
  file, and a UDP server that forwards queries.

The tests under `tests/` exercise the library on concrete messages.
