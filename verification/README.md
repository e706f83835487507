# nxs

A reader for the NXS binary format (`.nxb`) and the converters built on it,
written in Verus. The library's functions carry contracts that Verus proves;
the few calls into the standard library that vstd does not specify
(`String::push`, `std::str::from_utf8`, `String::from_utf8_lossy`) stand
behind small trusted wrappers whose contracts restate the standard library's
documentation.

## Layout

- `src/decoder.rs`: the `.nxb` reader. Preamble, embedded schema (key names
  and TypeManifest), root object, tail-index and single records; each cell is
  read by its key's sigil, and offset tables are u16 or u32 (jumbo mode). Each
  result is stated over a mathematical model of the file (`spec_decode`,
  `spec_decode_object`, `spec_cell`).
- `src/hash.rs`: the DictHash (MurmurHash3_x64_128, seed 0, first half) of
  the schema header, checked by `nxs-inspect --verify-hash` (a mismatch is
  the `DictMismatch` error, exit code 3).
- `src/convert/`: the converters.
  - `infer.rs`: the sigil lattice used by imports (classification of a text
    value, widening of numbers, conflict policies, optional keys).
  - `csv_in.rs`: the CSV reader and pass 1 (schema inference) of the CSV
    import, whose keys are the header's names.
  - `inspect.rs`, `json_out.rs`, `csv_out.rs`, `render.rs`: the text and JSON
    reports of `nxs-inspect` and the JSON and CSV exports. The library holds no
    floating-point values, so a Float64 cell is carried as its IEEE-754 bit
    pattern and rendered as hexadecimal: `~0x…` in the text report, the
    string `"0x…"` in JSON, `0x…` in CSV.
- `src/cli.rs`: the `--records` value and the exit code of `nxs-inspect`.
- `src/bench.rs`: the counters, iteration counts and display units of the
  benchmark.
- `src/error.rs`, `src/text.rs`: the error type and text helpers.
- `app/`: the `nxs-inspect` command line and the benchmark's timing and
  dataset generation (I/O, clocks and floating point), which call the library.
- `tests/`: tests on concrete files and values.

The proved laws stand beside the functions they speak of as `pub proof fn`
items, among them: what the decoder gives for the preamble and for each object
(one field per set bit of the presence mask), order independence and widening
in the sigil lattice, the optional flag of a key being exactly "absent from some
record", and the CSV exporter's output reading back, through the CSV reader, as
the cells it wrote.
