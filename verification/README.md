# pcap-engine

Indexes `.pcap` and `.pcapng` captures held in memory into per-packet
columns, dissects each packet (protocol, addresses, ports, a detail value),
previews link-layer headers, evaluates a small display-filter language over
the index, and summarises a capture (totals, time span, protocol breakdown,
top talkers). The library is written in Verus: its functions carry
contracts that the verifier proves, except nine small trusted wrappers
(`#[verifier::external_body]`) whose contracts are taken on trust: the
calls into `pcap-parser` in `src/pcapfile.rs`, and std's `String::push`,
`char::is_whitespace` and `char::is_alphanumeric` in `src/text.rs` and
`src/chars.rs`.

Layout:

- `src/capture.rs` — the capture index, legacy pcap and pcapng readers.
- `src/pcapfile.rs` — the calls into `pcap-parser` and what they are
  trusted to do.
- `src/dissect.rs` — per-packet summary (Ethernet, VLAN, Linux SLL, IPv4,
  IPv6 with extension headers, ARP, TCP, UDP/DNS, ICMP, ICMPv6).
- `src/link.rs` — link-layer preview (Ethernet, RadioTap/802.11, raw IP,
  loopback) with a hex echo of the first bytes.
- `src/filter.rs` — the filter language: lexer, parser, evaluation.
- `src/addr.rs` — IPv4/IPv6 address and number reading for the filter.
- `src/summary.rs` — the capture summary.
- `src/chars.rs`, `src/text.rs`, `src/bytes.rs` — characters, strings and
  bounds-checked byte reads.
- `src/lib.rs` — the surface the browser layer calls.
- `app/lib.rs` — the wasm-bindgen exports and serialisable copies of the
  result types (not verified).
- `tests/` — behaviour tests.
