# flashpdf-core

A PDF layout engine's core, verified with Verus.

- `src/` is the verified library: the binary command protocol decoder
  (`protocol`), the layout command tree and its parser (`command`,
  `document`), TrueType table parsing, character maps and subsetting
  (`font`), PNG and JPEG header parsing (`image`), the WinAnsi encoding, footer page tokens and
  text rules (`text`), and the domain values (`model`). Every public function
  states what it returns in terms of spec functions over the input bytes; the
  protocol module also proves that decoding does not depend on how the stream
  is split into pushes.
- `app/` is ordinary Rust around it: floating-point layout, content-stream
  painting and PDF object writing with `pdf-writer`, the loop that performs
  the decoder's actions on the renderer, and the WebAssembly adapter.
- `tests/` exercise the library on concrete inputs.
