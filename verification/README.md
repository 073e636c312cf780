# ocr_triage

Decides in well under a millisecond whether an image is likely to hold text, from a
small grayscale thumbnail: Otsu binarization, horizontal and vertical edge counts,
row and column coverage variance, a 4x4 regional grid and a coverage weight.

## Layout

- `src/` is the library, verified with Verus:
  - `jpeg_dc/`: a DC-only JPEG decoder that yields a 1/8-scale thumbnail. `reader`
    reads bytes, `headers` and `tables` parse the marker segments, `huffman` builds
    canonical Huffman tables, `bits` reads the entropy-coded bits, `entropy` runs the
    MCU loop against a model of the scan, `scan` sets up baseline and progressive
    scans, and `mod.rs` walks the markers.
  - `decode`: format sniffing, colour to luma, area-average downsampling, and the
    thumbnail paths through the outside decoders, which `codecs` wraps.
  - `sample`: nearest-neighbour subsampling of raw gray and RGB buffers.
  - `score`: the integer side of the scoring (histogram, Otsu mask, edge and
    coverage counts, the regional grid).
  - `simd`: the binarization, transition, sum and XOR-sum kernels.
- `app/`: the public triage entry points, with the floating-point scoring and the
  clock.
- `tests/`: tests of the library.
