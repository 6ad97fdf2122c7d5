# pdfwrite

Serialization of PDF documents, with its behaviour stated in contracts and proved by
Verus: objects and their syntax, classic cross-reference tables and cross-reference
streams, the rebuilt free list of a full rewrite, object streams, full saves with their
options, and incremental saves appended to an existing file.

Layout:

- `src/` the verified library. Each save is described by a spec function of the bytes it
  appends (`full_save`, `packing_save`, `incremental_save`); the public functions are
  proved to append exactly those bytes, and the proof functions prove what the files
  promise, such as every in-use cross-reference entry pointing at its object.
- `tests/` tests of the library on concrete documents.
- `app/` file and stream output around the library, and the conversion of `f32` values
  into real numbers.
