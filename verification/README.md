# fips_tcp

TCP/FIPS: reliable ordered byte streams carried directly by authenticated FIPS
service datagrams, as a sans-I/O state machine verified with Verus.

A connection is identified by `(remote FIPS identity, local TCP port, remote
TCP port)`. The stack is driven by explicit calls (`input`, `poll`, `write`,
`read`, `close`, `abort`, ...) with the current time in milliseconds, and it
queues the segment bodies it wants to send; the embedding carries them.

## Layout

- `src/wire.rs`: the segment encoding (header, options, flags); decoding an
  encoded segment gives it back.
- `src/seq.rs`: sequence-number arithmetic modulo 2^32.
- `src/reno.rs`, `src/rtt.rs`: Reno congestion control and RFC 6298 timers.
- `src/model.rs`: the mathematical model of one connection and of each of its
  steps; `src/connection.rs` implements those steps.
- `src/stack_model.rs`, `src/stack.rs`: the model of the whole stack and its
  implementation (admission caps, tuple lookup, ephemeral ports, outbound
  queue, abort).
- `src/marker.rs`: cumulative payload-acknowledgement markers.
- `src/report.rs`: feeding one received batch into a stack and counting what
  became of each datagram.
- `src/text.rs`: hexadecimal payloads and state names of the JSON-lines driver.
- `src/laws.rs`: properties that span several steps: abort, reset validation,
  admission, FIN-WAIT-2 and TIME-WAIT retention, accept order, fast
  retransmit, close, markers, stream order.
- `src/reassembly.rs`: out-of-order reassembly delivers a byte string in
  order: whatever slices of it arrive, in any order and duplicated, only a
  prefix is ever delivered, and slices that cover it deliver all of it.
- `src/runs.rs`: sequences of calls on a stack and the laws over them: a
  stack is determined by its configuration, seed and calls; after a close
  every write is refused while the connection lives; the bytes read stay a
  prefix of the peer's stream whatever the carrier drops, repeats or
  reorders.
- `src/sending.rs`: every segment a connection sends (first transmission,
  retransmission, probe, FIN) is well formed and carries a slice of the
  stream its application wrote, which is what the receiving side's stream law
  asks of the datagrams it is handed.
- `tests/`: scenario tests.
- `app/`: the JSON-lines driver (`main.rs`) and the adapter over
  `fips_core::FipsEndpoint` (`endpoint.rs`).
