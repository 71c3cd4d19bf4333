# nds_util

Readers for Nintendo DS ROM images, with their behaviour stated in
contracts and proved.

- `src/blz.rs` — in-place BLZ decompression: the footer checks
  (`check_footer`, specified by `footer_check`) and the decompression
  itself (`extract`), specified step by step over the buffer
  (`blz_extract`).
- `src/header.rs` — the cartridge header (`NdsHeader::load`): every field is
  the little-endian value at its offset.
- `src/file_table.rs` — the file name and allocation tables
  (`FileTable::load`, specified by `table_of`), the directory tree they form
  (each directory's entries are those of the name list its record points to,
  `dir_list`), and its depth-first walk for output (`FileTable::fs_events`).
- `src/overlay.rs` — the ARM9 and ARM7 overlay tables (`OverlayTable::load`).
- `src/rom.rs` — the ARM binaries, the decompressed ARM9 binary and the
  overlay files of a ROM.
- `src/bytes.rs` — little-endian values and byte cursors; the reads go
  through the `byteorder` crate.
- `app/` — the `nds` and `blz` command-line tools: argument parsing, file
  I/O, and the messages for malformed input.
