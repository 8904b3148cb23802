# compress_lab

A small collection of lossless codecs and transforms, verified with Verus:

- `base64`: Base64 encoding and decoding, and the line layout of encoded files.
- `bit_stream`: a writer and a reader of bit sequences packed into bytes, lowest bit first.
- `move_to_front`: the move-to-front transform, which can run over a stream in parts.
- `burrows_wheeler`: the Burrows-Wheeler transform of fixed-size blocks and its inverse.
- `lzv`: LZW compression with a six-byte header and fixed-width indices.
- `huffman`: Huffman trees, code tables, and a file format that stores the byte weights.
- `cli`: parsing of compression commands, the steps a command runs, and the
  transforms applied to whole buffers in chunks.

Each module states in its contracts what its functions compute, and the
round trips (decoding what was encoded gives back the input) are proved as
lemmas next to the code.

`app/` holds the command line programs: they read and write files and the
terminal, and call the library for everything else.
