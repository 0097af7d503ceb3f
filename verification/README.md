# meritrank

Personalized ranking by random walks (MeritRank), with the bookkeeping that keeps
the walks, the index of which walks visit which node, and the per-ego hit counters
consistent as the graph changes.

Layout:

- `src/` — the verified library.
  - `random_walk`, `counter`, `walk_storage`: walks, hit counters, and the walk
    storage with its visit index; which walks an edge change affects.
  - `bookkeeping`: when the visit index is exact, and the laws that each storage
    operation keeps it so.
  - `rank`: the per-ego hit counters and their consistency check against the walks;
    `consistency`: the laws by which taking a walk out, rebuilding it and counting it
    again keep the counters exact; `ranking`: the walks and the counters together,
    changed in the steps of building and rebuilding a walk, each stating what it
    keeps, and rebuilding all walks that an edge change affects (`rewalk_all`).
  - `astar`: iterative A* search driven by the caller.
  - `node_registry`, `nodes`, `data`, `protocol`, `new_server_ops`, `proc_multigraph`,
    `rpc`, `types`, `operations`, `processor_stats`, `lrgraph`,
    `aug_graph`: the service's node kinds and registry, the owner of a node, request
    records, edge routing, client helpers, settings and statistics.
  - `poll`: polls, their variants (kept in an `indexmap::IndexSet`) and the users'
    votes, with the invariant that variants and polls agree.
  - `helpers`: moving the entries that the ego owns to the front of a score list.
  - `node_set`: sets of node ids in a `tinyset::SetUsize`, which the counters and
    walks use to take each node once.
  - `legacy_request_handler`: what the server of the older protocol decides about a
    command before processing it (refusals, answers, recalculations for new names).
- `app/` — what the library leaves out: the weighted graph and walk generation
  (floating-point weights, random choices), scores, shared statistics, log switches
  and score bounds.
- `tests/` — tests of the library.
