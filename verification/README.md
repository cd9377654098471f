# grand-pattern-store

Persistence layer for the Grand Pattern cell graph: a compact binary format, a
JSON document format, CSV exports, an append-only tick log and snapshots that
carry per-room JEPA state. The formats are written and read by functions whose
behaviour is stated in contracts and proved with Verus.

## Layout

- `src/` — the verified library.
  - `graph.rs` — rooms, edges and the cell graph.
  - `persistence/` — the binary format (`binary.rs`), the JSON format
    (`json.rs`, with its read-back law in `json_roundtrip.rs`) and the CSV
    exports (`csv.rs`).
  - `snapshot.rs`, `snapshot/` — capture and restore, and the snapshot's JSON
    text (`format.rs`, with its read-back law in `roundtrip.rs`).
  - `tick_log.rs` — the line format of the tick log and its replay.
  - `text.rs`, `float_text.rs` — byte-level text primitives, and the texts
    that `str::parse::<f64>` accepts.
- `app/` — the file I/O around the library, and the conversions between `f64`
  values and their decimal texts.
- `tests/` — tests of the library.

## Numbers

Every `f64` of the graph is held as its bit pattern (`f64::to_bits`). The
binary format stores those bits; the text formats carry each number as the
text `f64`'s `Display` writes, which the library moves through its formats
unchanged and checks against the grammar of `str::parse::<f64>` when it reads.

## Binary format

```
[magic:4 "GPAT"][version:2][room_count:4][edge_count:4]
[rooms: room_count * 20 bytes (id:4 + vibe:8 + surprise:8)]
[edges: edge_count * 16 bytes (from:4 + to:4 + weight:8)]
```

All integers are little-endian.
