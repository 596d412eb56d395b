# serval_layout

Layout of styled documents, verified with Verus: the cascade's bookkeeping, box
trees and inline content, incremental relayout, scrolling, carets and
selections, links, images and the accessibility tree.

- `src/` is the library. Every function in it has a contract, and the laws that
  relate several functions stand beside them as public proof functions.
- `tests/` runs the library on concrete documents.
- `app/` joins the library to Stylo, Taffy, Parley, Skrifa and AccessKit.

Documents are arenas of nodes (`dom`), styles are plain computed values
(`style_plane`). Floating-point values are held by their bits, box places are
whole pixels, and scroll offsets count 64ths of a pixel. What only the style,
layout or text engine can compute is handed in as a closure: a contract then
says what the closure is asked, and what is made of its answer, whatever it is.

The calls into outside crates that the logic makes itself (the CSS tokenizer,
style sheets and `style` attributes, attribute operators, media queries, URLs,
`data:` URIs, image decoders, hash maps) are small trusted functions; the doc comment of each says what is taken
from the crate without proof.
