# wire_core

A small user-space TCP/IP stack (Ethernet, ARP, IPv4, TCP) with its
behaviour stated in Verus contracts and proved.

- `src/` is the verified library: sequence-number arithmetic (`seqnum`),
  the Internet checksum (`checksum`), TCP headers (`header`), frame
  building (`frame`), the per-connection state machine with retransmission,
  congestion control and reassembly (`conn`), the stack that routes frames
  to connections (`stack`), an echo service and an HTTP client step
  (`echo`), an ARP/ICMP responder (`probe`), the TAP attach request
  (`tap`), and a two-stack network
  simulation (`sim`). Contracts are stated over spec functions of plain
  values; `*_spec` functions say what each operation does and `law_*`
  proof functions state properties across operations.
- `app/` drives the library: TAP-device I/O, the clock, round-trip
  smoothing in floating point, and the random loss/duplication draws of
  the simulation. Run it with one of `core`, `echo`, `httpget`, `probe`,
  `sim`.
- `tests/` exercises the library on concrete frames and runs.
