# aseprite

Reading and writing of Aseprite `.ase`/`.aseprite` sprite files, verified
with Verus.

## Layout

- `src/` — the library. Every function carries a contract over a
  mathematical model of the file (`FileModel`, `LayerModel`, `CelModel`, …):
  - `bytes`, `text`: little-endian integers and length-prefixed strings,
    with what a read gives back of a write;
  - one module per chunk kind (`layer_chunk`, `cel_chunk`,
    `tileset_chunk`, `list_chunks`, `misc_chunks`, `legacy_chunks`,
    `user_data_chunk`, `props`), each with an encoder and a decoder
    specified byte for byte and a proof that a chunk reads back as written;
  - `cels`: the cels of a file as a key-ordered map;
  - `file`: `AsepriteFile` and its methods; `file::reader` (parsing a
    whole file, `from_reader`), `file::writer` (`write_to`), and the
    file-level laws: `file::readback::lemma_write_then_read` (what reading
    gives back of a written file, with `lemma_written_fields` spelling it
    out field by field), `file::rewrite::lemma_write_read_write` (a written
    file, read and written again, gives the same bytes) and
    `file::roundtrip::lemma_read_write_identical` (any file in the form the
    library writes each of its parts, in any chunk order and with chunks
    kept as they are, read and written back gives its own bytes);
  - `alpha`: premultiplied and straight alpha, with the law that valid
    premultiplied data made straight and premultiplied again is unchanged;
  - `zlib`: compression through `flate2`, behind two trusted wrappers.
- `tests/` — the tests, run against the compiled library.
- `app/` — `std::io::Read`/`Write` adapters, a `Display` error type, and
  the conversions to and from `image::RgbaImage` and `tiny_skia::Pixmap`.
