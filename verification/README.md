# tuning_studio

The logic of a firmware tuning studio, verified with Verus: the tuning table that
firmware publishes and the protocol that serves it, the debug information that a
host reads to find variables in memory, and the rules by which a host's session,
CAN capture and live stream go on.

## Layout

- `src/` is the library; every item of it is verified.
  - Firmware side: `table` (descriptors and the limited step), `float_bits`,
    `float_sum` (single precision by its bits), `wire` (frames), `server`
    (requests, lease, samples), `store` (saved records), `task_trace`.
  - Debug information: `dwarf_source` (what gimli reads), `dwarf_index`, `dwarf_load`,
    `die`, `dwarf_model`, `dwarf_eval`, `dwarf_types`, `dwarf_parser`; the types found in
    it in `type_def`, `type_table`, `type_handle`, `wrappers`.
  - Host side: `tree`, `browse`, `preview`, `leaves` (symbols as a tree),
    `elf`, `elf_load`, `elf_image` (the firmware's file), `catalog`, `catalog_layout`,
    `catalog_read` (the table in memory), `session`,
    `values`, `connect`, `app`, `calls`, `framing`, `stream`.
  - CAN: `can`, `capture`, `recording`, `remote`.
- `app/` is the server program around it: standard input and output, TCP, the CAN
  adapter's vendor library, files.
- `tests/` runs the library on concrete values.

Floating-point numbers stand in the library as their bits.

Calls into gimli, object, serde_json and a few functions of std go through
functions marked `external_body`; the comment above each says what is believed of
the call.
