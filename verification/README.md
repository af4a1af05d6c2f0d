# rp_core

The core of `rp`, a tool for research projects kept as files under `.research/`.
It decides what a canonical scan admits, indexes project objects, checks references,
semantics and access labels, decides what a hashed artifact read yields, reads derived
JSON reports strictly, and answers navigation queries over the index. Project-wide
validation, snapshots and claim-chain report binding are not part of it. Every
command runs under a cooperative execution budget: a deadline (60 s by default,
clamped to 1 ms ..= 600 s) and a caller token, observed at checkpoints.

The library in `src/` is written in Verus. Its public functions state their behaviour
in `requires` / `ensures` over mathematical models (`Seq`, `Set`, `Map`, views of
the library's types), and Verus proves the code against them. Where an outcome rests
on the clock, the caller's cancellation token or the findings allowance shared between
transcripts, the contract states what holds whatever was read, and a separate step
function (`expiry_proposal` with `checkpoint_outcome`, `admission_step`, `hash_step`,
`index_step`, `entry_step`) states exactly what follows from each reading. Calls into `sha2`,
`serde_json`, `jiff` and std that Verus cannot read go through small trusted
wrappers whose contracts say what those crates document.

Layout:

- `src/execution.rs`: the command budget, its clamp, stops and their findings.
- `src/finding.rs`, `src/findings.rs`: diagnostics, the shared production allowance,
  truncation, presentation order and the command result.
- `src/report_json.rs`, `src/json.rs`: the strict JSON reader and JSON access.
- `src/index.rs`, `src/indexing.rs`, `src/model.rs`, `src/project.rs`: the object
  index and how it is built.
- `src/semantics.rs`, `src/cycles.rs`, `src/graph.rs`, `src/claim.rs`: reference,
  semantic and graph checks.
- `src/access.rs`, `src/project_access.rs`: access labels and dependency floors.
- `src/navigation.rs`, `src/project_navigation.rs`: freshness, threads, history,
  queries and diffs.
- `src/content.rs`, `src/content_observations.rs`: metered hashing, artifact read
  outcomes and the record of content reads.
- `src/scan.rs`: directory listings, entry decisions and the file budgets of a scan.
- `src/init.rs`, `src/report_binding.rs`, `src/text.rs`: project initialisation
  decisions, report binding and text helpers.
- `tests/`: tests of the library; `app/`: the command-line program around it
  (`init`, `report`, `hash`, `digest` and `scan`).
