# rust_db

The storage layout of a small relational database: typed identifiers, rows and
schemas, and the fixed-size pages of a B+tree, with their byte encodings.

The library in `src/` is verified with Verus.

- `bytes`, `varint`, `text`: big-endian integers, variable-length lengths, strings.
- `traits`, `list`: the byte format as a trait with its laws, and lists in it.
- `commontypes`, `display`: identifiers, LSNs, slot entries and keys.
- `schema`: values, rows, columns, and validating a row against a schema.
- `order`: searching among items that have keys.
- `page`, `header`, `layout`: pages and where everything lies in their bytes.
- `insert`, `split`, `merge`: what is done to pages.
- `laws`, `split_laws`: what holds of pages across operations.
- `bpm`: the buffer pool's configuration.

`app/` puts the library on files: readers and writers, the pool over an opened
file, and errors that print their message. `tests/` runs the library.

A field takes at most 1350 bytes encoded, on writing and on reading alike, so whatever
row or key is read can be written again.

## Page layout (4096 bytes)

| Header | Slot array → | Free space | ← Row / key data |
|:---:|:---:|:---:|:---:|

All integers are big-endian. An `Option<PageId>` is a byte, `0` or `1`, and the
eight bytes of the id where it is `1`.

| Field | Size | Notes |
|---|---:|---|
| tag | 1 | `1` leaf, `2` internal |
| page id | 8 | table (4), page number (4) |
| LSN | 8 | `0` for none |
| parent | 1 + 8 | optional |
| next, prev | 2 × (1 + 8) | optional; leaves only |
| number of items | 2 | rows or keys |
| children | 8 each | internal pages only; one more than keys |
| slots | 4 each | offset (2), length (2) |
