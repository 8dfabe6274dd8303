# rui

The core of a full-stack reactive UI framework, written in Verus: every function in
`src/` carries a contract that Verus proves.

- `src/reactive.rs` — signals, effects, memos, scopes, contexts, and the flush that runs
  effects in dependency order.  A ghost run log, cleanup log and flush-step record let
  the contracts say which effects ran, which cleanups were invoked, and that every flush
  step took the queued effect that runs first.
- `src/dom.rs` — the server-side document: nodes, attributes, classes, HTML with
  hydration anchors, fetched responses, and event decoding.
- `src/runtime.rs` — route patterns, path and query parameters, percent coding.
- `src/view.rs` — rendering strategies, element references (cells that every copy of a
  reference shares), enter/leave transitions, keyed-list planning.
- `src/gql/` — the GraphQL value model and its JSON text (with the read-back law in
  `roundtrip.rs`), the document parser, the executor, the normalized cache, number
  reading, the entity query layer, and the store's version signals (`StoreSignals`),
  through which an effect that reads an entity re-runs when the entity is bumped.
- `src/server.rs` — host configuration, the page shell, request heads and entries,
  `/graphql` answers, static-page cache keys and the static-page cache.
- `src/deploy.rs` — the deployment graph, its provisioning order, cycles and levels.
- `src/jobs.rs`, `src/props.rs`, `src/codegen.rs`, `src/cli.rs` — background jobs,
  component properties, helpers of the code generators, and the command line's decisions.

`app/` holds what cannot be verified: the HTTP server loop, threads, process-wide
registrations, file and process work of the `rui` command, printing the deployment plan,
and floating-point readings. `tests/` exercises the library.

The procedural macros of the framework (`#[component]`, `view!`-style node trees, the
entity and platform derives, the route table and page emitters) are not part of this
crate: they parse and generate Rust token streams with `syn`, `quote` and `proc_macro2`,
which neither `src/` nor `app/` can host.  The small helpers they rely on (case
conversion, duration reading, GraphQL string escaping, selection printing) are verified
in `src/codegen.rs`.
