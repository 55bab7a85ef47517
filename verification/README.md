# slp_png_rs

A small PNG codec verified with Verus.

- `src/read.rs` decodes the bytes of a non-interlaced PNG stream into an
  `Image` (`read::imread`): signature and header checks, chunk reading with
  CRC checks, inflating the image data, and undoing the scanline filters
  (`read::defilter`, one function per filter type in
  `src/read/defiler_by_row.rs`), with the palette expanded to RGBA.
- `src/write.rs` encodes an `Image` into a PNG stream (`Image::write`),
  choosing for each scanline the filter of least score.
- `src/filter.rs` states the scanline filters mathematically and proves that
  the decoder undoes what the encoder does.
- `src/roundtrip.rs` proves that `imread` gives back the image that `write`
  encoded.
- `src/zlib.rs` holds the calls into zlib-rs (CRC-32, inflate, deflate), the
  only code whose contracts are trusted.
- `app/lib.rs` reads and writes PNG files with these functions.
