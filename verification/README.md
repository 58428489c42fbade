# omalibre

Pictures for the terminal and a Markdown mirror of book annotations, verified
with Verus.

- `src/image/` scales a decoded picture to terminal cells: half blocks (two
  pixels per cell, composited onto white), or an escape sequence for the Kitty
  graphics protocol or Sixel. `sizing.rs` works out the cell box in exact
  integer arithmetic; `codec.rs` holds the calls into the `image` crate
  (decoding, resampling, PNG encoding).
- `src/vault.rs` decides the path and the Markdown text of each book's notes
  file, and what syncing a whole library writes or removes. `src/book.rs`,
  `src/export.rs`, `src/text.rs` and `src/order.rs` hold the book records, file
  name slugs, string helpers and the stable sort by title it needs.
- `app/` does the file-system work (directories, atomic writes, removals) and
  gives `anyhow` errors.

What the pieces follow:

- `src/image/kitty.rs` follows the Kitty graphics protocol as kitty's
  documentation describes it: the image file in base64 (standard alphabet,
  `=` padding, as RFC 4648 gives it), at most 4096 characters per escape
  sequence, `a=T,f=100` to transmit and show it, `q=2` to keep the terminal
  from answering, `c`/`r` for the cell box, `i` for the picture's id, and
  `a=d,d=A` to delete every picture.
- `src/image/sixel.rs` follows the DEC Sixel format: `ESC P q`, raster
  attributes, colour registers in RGB percent (`#n;2;r;g;b`), one `#n` run per
  colour and band of six pixel rows, `$` back to the band's start, `-` to the
  next band, `ESC \`. The palette is a fixed cube of six levels per channel.
- `src/export.rs` turns a title into a file name of its own choosing: ASCII
  letters and digits in lower case, each run of anything else one `-`.
- `src/book.rs` shows a book by its title, or else by its file name without
  the extension (as `Path::file_stem` gives it for ordinary names), and its
  authors separated by `, `.
