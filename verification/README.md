# tdms_rs

Reading and writing TDMS files (National Instruments' Technical Data Management
Streaming format), with the format logic verified by Verus.

## Layout

- `src/` — the verified library.
  - `datatypes.rs`: data types, their codes and sizes; property values.
  - `encoding.rs`: little-endian numbers and UTF-8 texts, read from and appended to bytes.
  - `segment.rs`: the grammar of a segment (lead-in, objects, properties, raw data
    indexes) as spec functions, and the readers proved against it.
  - `path.rs`: object paths (`/`, `/'group'`, `/'group'/'channel'`).
  - `index.rs`: the index of a whole file image, segment after segment.
  - `tail.rs`, `cut.rs`: bytes after the segments that a file completes, and segments cut
    short, change nothing the reader finds.
  - `reader.rs`: `TdmsFile`, `TdmsGroup`, `TdmsChannel`; reading values and strings.
  - `names.rs`: values filed under names in first-insertion order, over `indexmap`.
  - `order.rs`: the byte order of names.
  - `values.rs`, `writable.rs`, `element.rs`: element types to read into, to write from,
    and the tie between the two.
  - `writer.rs`, `image.rs`: `TdmsWriter` and the bytes of the file it produces. A
    channel keeps its string end offsets apart from its value bytes, so that the strings
    of several writes share one table of offsets.
  - `roundtrip.rs`, `laws.rs`: what the reader finds in the writer's file — its groups,
    channels, properties and values.
  - `text.rs`: property values as text (all but the floating-point ones).
  - `bench.rs`: the benchmark's count arguments.
- `tests/` — tests of the library, in memory.
- `app/` — the file system and the rest: opening files, writing a writer's file on
  request and when it goes away, property values with floating-point numbers, and the
  benchmark.

Floating-point channel values and properties are held by their IEEE 754 bit patterns
(`F32Bits`, `F64Bits`, `PropertyValue::Float(u32)`, `PropertyValue::Double(u64)`).
