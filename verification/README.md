# exif_rm

Format detection and metadata removal for image and audio files, written in
Verus: every function carries a contract over a mathematical model of the
bytes it reads and writes, and Verus proves the code against it.

## Layout

- `src/format.rs` — `detect_format`: the format of a file from its leading
  bytes; for a ZIP archive, from the names of its entries (read with the
  `zip` crate behind `src/archive.rs`).
- `src/remove/gif.rs` — drops comment, plain-text and non-looping
  application extensions; `gif_laws.rs` proves that the result is a fixed
  point and that a clean GIF passes unchanged.
- `src/remove/mp3.rs` — cuts the ID3v2 tag, the padding after it and the
  ID3v1 trailer.
- `src/remove/webp.rs` — drops `EXIF`, `XMP ` and (on request) `ICCP`
  chunks and rewrites the RIFF size; `webp_laws.rs` proves that the output
  is the kept chunks in order, that removal is idempotent, and that a file
  with nothing to remove passes unchanged.
- `src/remove/heic*.rs` — rebuilds the `meta` box of a HEIC file without
  its Exif items and its XMP items (`mime` items whose content type is
  `application/rdf+xml`, or that declare none), and, on request, without
  the `colr` property and its `ipma` associations: each entry's association
  count is set to what is left, and the associations to properties after
  `colr` are renumbered so that they still name the same property. The
  `iloc` file positions move by what the `meta` box lost. `heic_laws.rs`
  and `heic_item_laws.rs` hold the laws: unchanged passthrough; consistent
  box sizes when the output's sizes fit 32 bits and every box other than
  `meta` holds its whole size field; the output's boxes in the input's
  order; `iloc` and `iref` rebuilt with the kept entries in order; each
  item's positions moved by exactly the delta.
- `src/remove/isobmff.rs` — box headers: reading and writing.
- `src/cursor.rs`, `src/archive.rs` — the trusted boundary to
  `std::io::Cursor` and the `zip` crate.
- `src/agreement.rs` — how detection agrees with what each remover accepts.

The tests under `tests/` run the library with the real `zip` crate.
