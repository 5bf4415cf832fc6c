# rsk

A toolkit for micrograms — small decision trees that carry their own tests and
chain into pipelines — and for the skills around them: routing, taxonomy
lookups, session and checkpoint state, and a shared key-value store.

## Layout

- `src/` — the library, written in Verus. Every function states what it
  returns in its contract, and the contracts are proved. Modules group by
  subject: values and maps (`value`, `strmap`), the decision engine
  (`engine`), micrograms and their runs (`microgram`), chains and loops
  (`chain`, `chain_loop`, `chain_validation`, `chain_checks`), analysis and
  transformation of micrograms (`interface`, `compose`, `catalog`,
  `contracts`, `compare`, `mutate`, `explore`, `generate`, `pipe`, `hygiene`,
  `exercise`, `draws`), registries (`index`, `chain_registry`, `skill_registry`),
  skills (`routing`, `routing_match`, `taxonomy`, `taxonomy_query`,
  `signature_validator`), state (`session_tracker`, `state_manager`,
  `state_server`), and the wiring patrol (`patrol`).
- `app/` — plain Rust around the library: reading and writing YAML and JSON
  files, the clock, the Unix-socket state server, and the reports whose
  figures are floating-point numbers (percentages, averages, statistical
  tests, routing scores).
- `tests/` — tests of the library's public functions.

The few calls into the standard library and outside crates that Verus cannot
see into (`chrono`, `uuid`, `dashmap`, `serde_yaml` errors, string case
mapping) sit behind small wrappers whose contracts say what those functions
promise; each wrapper's comment names the function it calls.
