# flash

An incremental artifact runtime. A task becomes a graph of content-addressed steps, so that work
whose inputs did not change is served from a store and only new work is done.

The library under `src/` is written in Verus: each function states what it returns, and the proofs
are checked. What reaches outside (files, processes, models, a clock, floating point numbers) is
ordinary Rust under `app/`.

## Layout

| module | what it holds |
| --- | --- |
| `identity` | digests, framed hashing, node and action keys, attribution |
| `engine` | the task graph, the scheduler's state, the turns of a run, eta, and what every run keeps |
| `store` | blobs, the memo, duration history, the crash journal, worktrees |
| `adapter` | what every kind of artifact offers: outlines, packs, ops, rungs, merging |
| `code`, `doc`, `sheets`, `slides` | the four adapters |
| `orchestrator` | keys, plans, prompts, models, and a node's work as a state machine |
| `server`, `cli`, `bench` | the daemon's protocol, the command line, the benchmark's report |
| `json`, `utf8`, `text`, `names`, `maps`, `reach`, `splice`, `wording`, `figures`, `impact` | what the others stand on |

## Reading the proofs

Promises about the library as a whole are public proof functions whose names begin with `law_`.
The ones about runs are in `engine::progress` (no node waits for nothing), `engine::order` (no node
runs before its turn), `engine::trace` (a second run costs nothing, a rerun runs exactly what moved,
and what moves lies downstream of a change) and `orchestrator::replan` (a body edit does not plan
again; a new entity does). `doc::sections` holds that the text of a section names its blocks, and
`sheets::worth` that an incremental recalculation shows what a full one does.

What is believed and not proved is marked `#[verifier::external_body]` or `assume_specification`,
with a comment that names the outside function: blake3 in `identity`, tree-sitter in `code::syntax`,
serde_json in `json`, and a few functions of std in `utf8`, `text` and `sheets::formula`.
