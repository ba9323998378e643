# onebrc

Per-station temperature statistics (minimum, mean, maximum) over a file of
`<station>;<temperature>` rows, verified with Verus.

- `src/readings.rs`: the input format as spec functions over bytes, the
  temperature parser, and the proof that rows parse independently.
- `src/stats.rs`: the statistics of a station, how readings and partial
  tables combine, and the laws of merging.
- `src/table.rs`: the fixed-size open-addressing table (FNV-1a, linear
  probing), its invariant and its view as a map from names to statistics.
- `src/process.rs`: scanning an input into a table.
- `src/chunks.rs`: splitting an input at row boundaries, and the proof that
  merging the tables of the parts gives the table of the whole input.
- `src/order.rs`: the byte-wise order in which stations are reported.
- `app/main.rs`: memory-maps the file, scans the parts on threads, merges
  and prints.
