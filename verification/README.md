# wl_scanner

Reads the Wayland protocol description (`wayland.xml`) and generates Rust
bindings for it: one module per interface, with `Request` and `Event` enums,
an opcode decoder for requests, and the protocol's enums.

The library under `src/` is written in Verus and verified:

- `text`: character-level helpers (decimal numbers, trimming, splitting).
- `format`: name and documentation formatting.
- `wl_types`: the protocol model (interfaces, requests, events, enums) and
  their display texts.
- `convert`: wire type names.
- `xml`: tag attributes, read through `quick_xml`.
- `scanner`: the state machine that builds the protocol model from XML reader
  events.
- `codegen`: generation of the Rust source.

`app/main.rs` reads the XML file, feeds its events to the scanner, and writes
the generated source.
