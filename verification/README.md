# mote

Filesystem triage: walk a tree, find byte-identical duplicates, route files
by what their bytes say they are, and expand archives safely. `scan` only
reads and writes a JSON plan; `apply --commit` carries the plan out.

## Layout

- `src/` is the library, verified with Verus. The decisions are stated here
  with their contracts: archive member names (`archive::safe_name`), archive limits
  (`archive::Listing`), what an extraction may write (`archive::extract`),
  identification (`ident`), the rule list (`rules`), destination claims, the
  duplicate copies set aside and the routing pass (`route`), the three
  duplicate tiers and the report order (`dedupe`), plan summaries and dry-run
  text (`plan`), and the skip-if-done steps of `apply` for moves and archive
  members (`apply`). The loops that interleave these decisions with file
  reads and writes are in `app/`; what a whole scan and a re-run decide is
  stated over the per-step contracts (`route::scan_spec`,
  `apply::lemma_rerun_does_nothing`). `path` gives
  paths the meaning std gives them; `order` and `index` are the sorting and
  lookup the rest is built on.
- `app/` is the command-line program around it: argument parsing, walking the
  tree, reading files and archives, hashing file contents, writing files, and
  the JSON and TOML forms of the library's types.
- `tests/` exercises the library.
