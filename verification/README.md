# enact_parser

A reader for XNB content files, verified with Verus.

- `src/reader.rs`: a cursor over bytes (little- and big-endian numbers,
  7-bit encoded integers, length-prefixed strings).
- `src/bit_reader.rs`: the LZX bit stream, 16-bit little-endian words read
  most significant bit first, with zeros past the end.
- `src/tree.rs`: canonical Huffman trees: building the codes from code
  lengths, decoding a symbol, and reading delta-coded length tables.
- `src/decoder.rs`: the LZX decompressor (verbatim and aligned offset
  blocks, matches with the three recent offsets).
- `src/models/`: the file header, textures, effects, surface formats and
  type reader names, and `XNBFile`, which reads a whole file.

Each public function states its result over spec functions of the input
bytes (`parse_header`, `decode_frame_spec`, `parse_xnb`, ...). `app/` holds
the command-line program, which reads a file and logs what it holds.
