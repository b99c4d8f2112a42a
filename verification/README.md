# paladocs

A Typst slide presenter for terminals: a deck compiled with Touying is shown
page by page, either as Kitty graphics (with overlays sent as partial
updates) or projected onto ANSI cells.

The library (`src/`) is verified with Verus. It holds the deck model and its
invariants, the navigation state machine, the pixel and cell primitives
(diffing, cropping, compositing, half-block quantisation, glyph placement,
letterboxing), the Kitty graphics wire encoder and the presenter lifecycle (stated over
the requests its backend records having received), the ANSI cell writer, the frame cache, the pdfpc metadata reader, the
command-line parser, the control-socket protocol and the diagnostic JSON.
Calls into `serde_json`, `unicode-width` and `tiny-skia` go through a few
trusted wrappers whose contracts state what those crates do.

`app/` is the program around it: Typst compilation and rasterisation,
terminal ownership, input threads, the control socket and the main loop.
