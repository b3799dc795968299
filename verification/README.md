# quic_transport_qa

QA programs for a peer-to-peer stack with a QUIC transport: many sessions,
sustained traffic, restarts, wide area conditions, and parity with TCP. Each
program drives real services over the network and ends with a verdict, exit
code 0 for a pass and 1 for a failure.

What the programs decide is a library verified with Verus (`src/`). What they
do to the world is ordinary Rust around it (`app/`).

## The library

| Module | What it settles |
|---|---|
| `rounding`, `binary64` | IEEE 754 binary64 arithmetic on bit patterns, rounded to nearest, ties to even |
| `text`, `env`, `time` | decimal numbers, tunables from environment variables, spans of time |
| `resources` | peak memory, its text and its growth |
| `stats` | percentiles, caps on latencies, shares of answered messages |
| `wire`, `probe` | messages: stamped pings, gossip frames, fillers, round trips |
| `addr`, `identity` | multiaddresses, ports, dial addresses, seeds, keys and peer ids |
| `rng`, `relay` | the UDP relay that delays, jitters and drops |
| `workload`, `session` | paced workloads in windows, waits with a budget, closed sessions |
| `programs::*` | one module per program: settings, state, decisions, verdict |
| `contracts` | the scenarios that lock single promises of the transport |

Thresholds such as loss ratios are binary64 numbers in the programs. The library
computes with their bit patterns, so that verdicts are those of the hardware,
and its contracts say exactly which number comes out.

A few functions are trusted: the conversions to and from `bytes::Bytes`, the
components, text, parsing and checking of `Multiaddr`, the keys and peer ids of
`SecioKeyPair`, and sorting. Each says in its doc comment what it claims.

Functions named `law_*` are proofs of what holds across functions, such as that
percentiles stand at the nearest rank, that a relay without loss forwards
everything, that every request of a run is reported, or that a missed comeback is not made up for by a later one.

## The programs

`app/main.rs` runs the program whose name the executable is called by, or else
the one named by the first argument:

- `qa_mixed_transport_gossip`, `qa_quic_jitter_reconnect`, `qa_quic_soak`,
  `qa_quic_vs_tcp_baseline`, `qa_quic_wan_stability`,
  `qa_large_message_throughput`, `qa_quic_concurrent_sessions`,
  `qa_quic_handshake_storm`
- `qa_wan_server` and `qa_wan_client`, for a run between two machines
- `quic_qa_error_matrix`, `quic_qa_coexist`, `quic_qa_idle_timeout`,
  `quic_qa_keep_alive`, `quic_qa_listener_survives_bad_handshake`,
  `quic_qa_duplicate_dial`, `quic_qa_peer_id_dedup`

Each reads its tunables from environment variables; the `Config` of its module
lists them with their defaults.

## Dependencies

`tokio-util` is named in `Cargo.toml` for its version alone: `tentacle-secio`,
under `tentacle`, does not compile with the newest one.
