# verz_link

Several networks as one connection: a scheduler that spreads packets over
adapters, repairs what a failing one loses and keeps conversations alive, with
the encrypted tunnel, the local proxy and the adviser that go with it. The
library is written in Verus. Its contracts say what every function does, and
the laws of the whole stand beside them as proof functions.

## The library (`src/`)

- Packets: `wire`, `packet`, `frame`, `envelope`, `tunnel`, `echo`.
- Bonding: `path` (the congestion window of a path), `flight`, `placement`,
  `bond` (the scheduler), `repair`, `turn` (one turn of the scheduler), with
  the laws of the whole in `bond_laws`, `turn_laws`, `turn_frames` (what a turn
  sends), `turn_numbers` (how it numbers packets) and `ack_laws`; `reorder`
  restores the order of TCP flows and `payload_meter` counts what really
  arrived, every byte once (`meter_laws`).
- The UDP lane: `link`, `sender`, `recovery`, `udp_reassembly`, `udp_lane`.
- Sessions: `greeting`, `admission`, `tunnel_server`, `tunnel_client`,
  `relay`, `bond_client`.
- The proxy: `socks`, `names`, `direct`, `plan`, `runtime`, `route`, `flow`,
  `tcp_metrics`.
- The adviser: `brain`, `channel`.
- The edge of the system: `egress`, `intake`, `web`.
- The laboratory: `lab` (two paths, made-up packets, and what became of each).
- Ground: `binary64` (numbers in binary floating point, computed with integers
  and specified as rounded rationals), `table`, `replay`.

Encryption comes from `snow`, digests from `sha2`, `hmac` and `hkdf`, and
hexadecimal text from `hex`. What the proofs believe of them stands in `noise`
and `crypto`, and of two functions of the standard library in `names` and
`socks`.

## The programs (`app/`)

Command line, sockets, devices, files and clocks. Nothing is decided there:
the programs hand bytes and times to the library and do what it answers.
