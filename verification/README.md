# cargo-ff

`cargo ff` is a drop-in replacement for `cargo fmt`: it takes the same flags and
hands the same files to rustfmt, many crates at a time, which is faster on large
workspaces. What rustfmt makes of them is not shown here.

The logic of the tool is a Verus library under `src/`. What it promises stands in
`requires` and `ensures` clauses and in public proof functions, and Verus checks
all of it.

| module | what it holds |
| --- | --- |
| `text`, `number`, `order`, `bytes`, `path`, `keyed` | text scans, numbers, stable sorting, byte strings, Unix paths, values kept by path |
| `types` | editions, crate units, batches, results, configuration, errors |
| `metadata`, `search`, `manifest`, `claims`, `discover` | which packages to format, with which entry points |
| `size`, `fingerprint`, `cache`, `cache_laws` | size proxies and the experimental skip cache |
| `coalesce`, `coalesce_laws`, `dispatch` | grouping crates into batches, and the priority queue |
| `invoke`, `report` | one rustfmt process, and the report over all of them |
| `style`, `warnings` | advisory warnings |
| `cli`, `pipeline`, `run_laws` | the command line, how a run is set up and ended, and what holds of a whole run |

Not proved, but stated and relied on: what `String::push` does, what
`String::from_utf8_lossy` makes of UTF-8, what `cargo_metadata::Edition::as_str`
returns, and what `anstyle` renders for a style. Each of these stands beside its use, with a comment.

`app/` is the program around the library: command line, threads and channels,
`cargo metadata`, rustfmt processes, files and the terminal. `tests/` holds the
library's tests.

Paths are any bytes, split at `/`: the program is for Unix.
