# chaz

A verified library for multi-agent workflows, written in Verus.

A workflow is a tree of spawns, sequences, forks, joins and loops, authored as JSON in
a loose form. The library lowers it to a canonical form, reads it, checks its
references and runs it. A run is a function of the replies received so far: given a
flow and a transcript of replies, it says which calls are open now or what the run
ended with. The surrounding program makes the calls and records the replies.

## Layout

- `src/text.rs`, `src/ordered.rs`, `src/json.rs`: texts, maps in key order, and JSON
  values with their reading and rendering.
- `src/flow.rs`: the flow types and their views.
- `src/canonical.rs`, `src/normalize.rs`: the canonical form and the lowering to it.
- `src/codec.rs`: canonical JSON to flows and back.
- `src/references.rs`, `src/parse.rs`: reference checks, and reading as a whole.
- `src/executor.rs`, `src/guarantees.rs`: runs, and what holds of every run.
- `src/workflow.rs`: the workflow tool.
- `src/extension.rs`: the extensions that contribute tools.
- `src/os_text.rs`: paths and arguments as bytes.
- `src/service.rs`: finding the daemon of a peer, or starting one.
- `app/`: the asynchronous program around the library: delegation to agents, MCP
  servers, sockets, file locks and child processes.
- `tests/`: tests of the library.

What the library takes on trust from `serde_json` and the standard library stands in
`json.rs`, `text.rs`, `os_text.rs` and `service.rs`, marked `#[verifier::external_body]` or
`assume_specification`, each with a comment that says what is claimed.
