# image_compression

Lossless image compressors and the helpers of a benchmark runner, written in
Verus and proved against their contracts.

- `src/` is the verified library: run-length encoding of whole pixels
  (`rle`), of each colour channel (`rlce`), Huffman coding of pixels
  (`huffman`, `merging`, `bits`), the PNG baseline (`png`), the compressor
  template (`template`), the command-line decisions of the runner (`runner`,
  `report`, `text`, `args_order`), the image-library listing (`library`) and the pixel hash
  and integer pixel patterns of the test-image generator (`pattern`). Round trips (decoding what was
  encoded gives the buffer back), the order of Huffman code lengths, the
  sizes of the run-length encodings of solid images and the independence of
  the argument order are proved as lemmas.
- `tests/` runs the library on concrete values.
- `app/` is the runner program: file and directory I/O, timing, the
  floating-point similarity scores and averages, tables and CSV output, and
  the test-image generator (`gen`, run when the program is invoked as `gen`),
  which draws the four floating-point images itself.
