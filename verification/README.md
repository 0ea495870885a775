# rtptool

Inspect, extract and apply RTPatch `.rtp` binary patch files, with the file
format, the diff decompressor and the patch interpreter verified by Verus.

## Layout

- `src/` — the verified library.
  - `reader.rs` — little-endian integers, length-prefixed strings and
    variable-length integers, each specified as a function of the bytes.
  - `parser.rs` — the file header, directory table and file records; `parse`
    returns exactly what the byte-level specification describes, and
    `lemma_parse_sound` states what holds of every accepted file.
  - `codec.rs` — the adaptive-Huffman + LZSS decompressor of MODIFY payloads,
    with each Huffman table modelled as its byte image.
  - `kraft.rs` — the laws of those tables: a fresh table is laid out in order
    and holds a complete prefix code; registering a symbol, rebuilding, counting
    a symbol and rebuilding the limits keep the layout and the code complete
    (Kraft sum and symbol count); a rebuild only reorders the slot table, and a
    new symbol's weight address is appended to it.
  - `apply.rs` — the opcode interpreter that rebuilds a file from a source and
    a decompressed program; its result always has the destination size. Its
    opcode reader reads the same VLIs as the container reader.
  - `lib.rs` — the masked CRC-32 and `patch_file`, which checks, decompresses
    and applies one record.
  - `select.rs` — the rules of the command-line tool: filename filters, record
    selection, per-type counts and output names.
  - `text.rs` — decimal and hexadecimal texts of numbers, as messages and sizes
    show them.
  - `types.rs`, `error.rs` — data types and errors.
- `tests/` — tests on concrete byte streams.
- `app/` — the `rtptool` command-line program (argument parsing and file I/O).
