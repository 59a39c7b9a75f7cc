# diode

Software for a data diode: files dropped into a directory on the sending
side travel as UDP packets over a one-way link, with Reed-Solomon parity
per batch of 1000 data chunks, and are reassembled on the receiving side.
Local UDP datagrams can be forwarded across the link as well. The END
packet of a file carries a content digest, chained batch by batch over
MD5, which the receiver recomputes from the bytes it writes; a transfer
whose digest differs is marked `.failed`.

## Layout

- `src/` is the verified library (Verus):
  - `proto.rs`: the wire format, the parity-count field, the safe-path rule
    for START packets, packet decoding, and the round-trip laws.
  - `send.rs`: the sender's packet planning (the START/DATA/PARITY/END
    sends of a file with their resend counts, UDP fragments, back-off and
    pacing arithmetic).
  - `receive.rs`, `batch_recovery.rs`: the receiver's state machine, batch
    buffering under a memory cap, and batch reconstruction with FEC.
  - `udp_forward.rs`: reassembly of forwarded UDP datagrams.
  - `fec.rs`, `hashing.rs`: the calls into `reed-solomon-simd`, `md5`,
    `sha2` and `hex`, with the contracts that the proofs rely on.
  - `timefmt.rs`, `decimal.rs`, `ascii.rs`: log timestamps and decimal and
    ASCII helpers.
- `tests/` exercises the library on concrete values.
- `app/` is the program around it: command line, sockets, files, threads,
  logging to syslog and the serial status display.

Run `diode send --directory DIR`, `diode receive --directory DIR`, or
`diode sha256 FILE...`.
