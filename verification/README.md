# mouse_testing

The measurement logic of a mouse testing suite, written in Verus: each
function carries a `requires`/`ensures` contract and Verus proves the code
against it.

## Layout

- `src/` — the verified library.
  - `hid_descriptor`, `sample`, `ring`, `capture`, `clock` — decoding HID
    reports, the capture record and its bounded ring, the per-level capture
    bookkeeping and session state, and tick-to-nanosecond conversion.
  - `session_log`, `battery`, `export`, `ab` — the file formats: the session
    log CSV and its reader, the battery record lines and their comparison,
    export file names, and the blinded A/B plan and trial CSV.
  - `debounce`, `cps`, `polling`, `abstats`, `sim`, `sensor` — the integer
    parts of the analyses: press pairing, peak click windows, interval
    vocabulary and verdicts, the choices of the A/B statistics with their
    exact binomial counts and seeded generator, the synthetic stream
    generator, and the sensor protocol, segmentation and scroll clustering.
  - `summary`, `sections`, `text`, `wrap` — text building blocks, navigation
    state, character-level string handling, and word wrapping.
  - `png`, `deflate`, `inflate` — the icon encoder: CRC-32, Adler-32, a
    fixed-Huffman deflate with a hash-chain matcher (its tokens are stated
    step by step as `lz77_tokens`), the PNG framing, and the reading side of
    the format, against which a deflated stream is proved to read back as its
    input.
- `tests/` — tests run against the compiled library.
- `app/` — the command-line program around the library: clock reads, file
  input and output, and the floating-point analyses (interval statistics,
  click timing, click rates, rank tests, the sensor and scroll detectors)
  that work on the library's integer results.

Laws that relate several functions are public proof functions named
`lemma_*`, next to the functions they speak of.
