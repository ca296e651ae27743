# flaky_network

Forward error correction for a media stream sent over a lossy, reordering,
duplicating datagram relay, verified with Verus.

Every 160-byte frame is sent as a data packet; when the byte budget allows, the
sender also sends the XOR of the last few frames (a causal equation ending at
the frame).  The receiver unwraps the 15-bit wire sequence numbers, keeps a
power-of-two ring of recent frames and equations, and restores lost frames by
peeling: an equation that misses exactly one recent frame gives that frame.

## Layout

- `src/lib.rs`: frames, byte-wise XOR and the XOR algebra behind recovery.
- `src/protocol.rs`: harness and link packet formats, the redundancy budget,
  sequence unwrapping.
- `src/config.rs`: equation width and window size from a playout delay given
  in whole frames.
- `src/sender.rs`: the encoder that turns frames into data and parity packets.
- `src/recovery.rs`: the receiver's window and its peeling recovery.
- `src/runs.rs`: what holds over whole runs of packets.
- `tests/`: scenarios on concrete values.
- `app/`: the sender and receiver programs (sockets, environment, and the
  floating-point conversion of the delay into frame counts).

## What is proved

Packet encodings decode back to what was encoded.  The parity schedule never
exceeds twice the media bytes, and one frame followed by one parity request per
round grants exactly `(158 * n) / 162` parity packets in `n` rounds, the most
the cap allows.  Unwrapping picks the nearest sequence number with the received
low bits (the lower one on a tie), so it restores any sequence number less than
half the modulus away from the newest one.  Configurations are bounded and grow
with the playout delay counted in whole frames; the conversion of a delay in
milliseconds into frame counts is floating point and lives, unverified, in
`app/config.rs`.

For the receiver: after every packet no equation that could restore a frame is
left unsolved; the arriving frame is handed out first, then each restored frame,
each restored from one equation whose other members were known before it, with
that equation's parity XOR those members; every frame is handed out once and
agrees with any media stream that the received packets agree with.  Over a run
that stays within one window, the known frames are exactly the least set closed
under peeling, so what is recovered and handed out (as a multiset of sequence
numbers with their frames) does not depend on the order in which the packets
arrive, and equations with two or more unknown frames are never solved.  Over
any run, no sequence number is handed out twice.
The encoder's parity packets agree with the receiver's equations.
