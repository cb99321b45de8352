# suplab

The measuring side of an append-oriented key/value store: the workloads, the
dictionary layouts that are compared with one another, the crash and damage
trials, and the rules by which a run of measurements becomes a verdict.

`src/` is the library. All of it is verified with Verus: each function states
what it returns or changes, and the properties that span functions are public
proof functions beside them.

- Layouts of a sorted dictionary: `layout` (what they all do), `heap_hash`,
  `btree`, `packed`, `hash_packed`, `hash_flat`, `hash_paged`, `mph_paged`, with
  `bloom`, `mph`, `table`, `flat`, `paged`, `btree_page`, `trace` and `memory`;
  `layouts`, `keyset` and `lab` load and compare them.
- Workloads: `kvbench`, `supbench`, `soak`, `tablebench`, `mvcc`, `concur`,
  `load`, `splitmix`, `rng`, `wal`, `stores`, `survivors`.
- Trials: `crash`, `crash_run`, `crash_child`, `damage`.
- Reads over a remote object: `pages`, `host`, `browse`, `inverted`.
- Advice to the page cache: `advice`, `pass`, `smaps`.
- Outcomes: `verdict`, `claims`, `report`, `figures`.
- Bytes and text: `bytes`, `digits`, `prefix`, `varint`, `ext`, `hash`, `sort`,
  `text`.

Two functions of the standard library are taken at their word, both in
`memory`: `Vec::shrink_to_fit` and `Vec::capacity`.

`app/` holds the programs: arguments, files, processes, clocks, threads and the
store itself. `tests/` runs the library on concrete values.
