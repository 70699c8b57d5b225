# netcore-engine

A network security monitor's core, verified with Verus: it decodes captured
frames (Ethernet, IPv4/IPv6, TCP/UDP/ICMP, the first DNS question), keeps a
bounded table of bidirectional flows, counts what it sees, runs detection
rules over sliding windows, and reads and writes pcap captures.

## Layout

- `src/` — the verified library.
  - `packet/` — decoders, each against a specification of the bytes it reads.
  - `flow.rs` — canonical flow keys and the LRU flow table with idle expiry
    and the top flows by bytes.
  - `engine.rs` — the engine that takes frames: counters, flows, rules, and
    the invariants that hold between frames.
  - `rules/` — rule specifications and their checks, sliding windows, and
    the per-source rule state with thresholds and cooldowns.
  - `pcap.rs`, `replay.rs` — reading and writing captures held in memory,
    and replaying a capture through the engine.
  - `synth.rs` — deterministic synthetic traffic.
  - `analytics.rs`, `link.rs`, `abi.rs` — flow export and alert queueing,
    the reconnecting link's state machine, and the plain-data records of the
    C interface.
  - `cli.rs` — the command line and the report's lines.
  - `lru_cache.rs` — the `lru` crate's cache, as the library uses it.
- `tests/` — tests of the library.
- `app/` — the `netmon` program: files, printing, the YAML rule files, and
  the entropy measure of DNS labels.
