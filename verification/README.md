# radar

Tools for radar CAN traffic: decoding the UDP datagrams that an MCU sends, the radar
packets inside them and their signals (read with a CAN matrix from a spreadsheet), frames
from ASC trace files, DBC message lists, and round-trip timing over UDP.

## Layout

- `src/` — the library, verified with Verus. Every function states what it returns in its
  contract, and the laws that relate several functions are proof functions beside them.
  - `bits` — Motorola (MSB-first) bit fields.
  - `text` — trimming, whitespace words, integer and float-literal text.
  - `endian` — little- and big-endian integers on the wire.
  - `msg` — the MCU message header and its codes.
  - `parser` — radar packets and payloads, and their decoding with the matrix.
  - `matrix` — the CAN matrix: message and signal rows of the spreadsheet.
  - `datagram` — UDP datagrams in captured Ethernet frames, and the decision which ones
    carry radar payloads.
  - `asc` — frame lines of ASC traces and their decoding.
  - `charset` — UTF-8 or GBK text files as UTF-8.
  - `dbc` — the DBC message list and the messages a selected entry stands for.
  - `rtt`, `trace` — round-trip timing state and route-trace output.
  - `display` — the stopwatch reading and the forwarder's listen address.
- `tests/` — tests of the library on concrete values.
- `app/` — the programs: file, network and terminal I/O, the spreadsheet and pcap readers,
  and the floating-point scaling of signal values.
