# chperf

A library that reads Chrome DevTools trace files and tells where the time went,
with its behaviour stated in contracts that Verus proves.

- `src/trace`: the structure scan, the tokenizer, units of parallel work, events,
  metadata and the choice of the main thread.
- `src/analysis`: summary, scroll frames, sampled profile, layout, style, forced
  reflows, jank, and the comparison of two traces.
- `src/windowed`: anchors, frames, collections, the call tree, and the windows
  before, at and after an anchor.
- `src/inspect`: lists, distributions and searches over the events of a scope.
- `src/query`: the flags of a query, the sections that answer it, the prompt.
- `src/report.rs`, `src/html.rs`, `src/details.rs`, `src/chart.rs`: the report as one
  HTML file.
- `src/sort.rs`, `src/table.rs`, `src/frac.rs`, `src/text.rs`, `src/json.rs`,
  `src/values.rs`, `src/compact.rs`, `src/csv.rs`, `src/doc.rs`: what the others build
  on.

Times are whole nanoseconds. Averages and shares are exact quotients; a document
is text with numbers in it whose digits are written when it is printed.

`app/` is the command line around the library: arguments, files, and printing.
The crates `memchr`, `regex`, `rustc-hash`, `serde_json` and `flate2` are called
through declarations whose contracts are believed; each says what it claims.
