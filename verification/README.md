# possess

A Markdown notes server whose decisions are proved with Verus.

- `src/` is the verified library: the Markdown preview (wiki links, images,
  task checkboxes, block annotations), the source-editing helpers, and every
  check and listing the server makes (paths, pasted images, search, scripts,
  the trash, the per-vault hook setting). Each public function states its
  result in its contract; the laws that tie functions together (a task set
  reads back, an encoded name decodes back, block indices agree with
  `block_ranges` whenever the parser keeps images nested inside blocks, a
  hook setting reads back, ...) are public proof functions.
- `app/` is the server around it: routes, the disk, processes, and the JSON
  shapes of the API.
- `tests/` run the library on concrete inputs.

Calls into outside crates (pulldown-cmark, regex, base64, mime_guess,
chrono, uuid) and into the parts of `std` that Verus has no specification for
go through small trusted wrappers, each documented with what it is trusted to
do.
