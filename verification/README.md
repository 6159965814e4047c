# PDFer

The logic of a desktop editor of PDF documents, verified with Verus.

- `src/` is the library: the text of a paragraph and its layout, the frame that
  a paragraph stands in, selecting and dragging, the edits that come out of it,
  groups and the clipboard, the order of pages, zooming and paging, fonts,
  styles and templates, and the menus and labels of the window.
- `tests/` runs the library on concrete values.
- `app/` is the program around it: the window, the files on disk and the engine
  that reads and writes documents.

Lengths are integers, in units of 2^-24 of a point; pixels, degrees, percents
and zoom factors are told in the same unit. A channel of a colour is held by
the bits of its magnitude with its sign, so that equal numbers are equal.
