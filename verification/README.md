# hyperfine (verified core)

The measuring and reporting logic of a command-line benchmarking tool, written
in Verus and proved against its contracts.

- `src/util/decimal.rs`: fixed-point decimal text of whole numbers, rounding
  half to even, and the laws that the text reads back as the rounded value.
- `src/util/double.rs`: double-precision numbers held as their bit patterns,
  with exact integer reasoning about comparison, rounding to the nearest
  double, products and decimal text (`Second` is a double of seconds).
- `src/util/units.rs`: the units time spans are shown in.
- `src/output/format.rs`: memory sizes and durations as text.
- `src/output/warnings.rs`: the warnings shown after a benchmark, and their text.
- `src/benchmark/`: the timing result record and the shortest reliable run time.
- `src/timer/mod.rs`: the prefix table and the chunked pattern search that
  waits for a command's output, and the conversion of resource-usage counters
  into seconds.
- `app/`: spawning and waiting for processes, reading their output, system
  calls, and `Display` for warnings.
