# pinto

The verified core of pinto, a local-first Scrum backlog and Kanban board that keeps
Product Backlog Items (PBIs), Sprints and workflow state in plain text.

`src/` holds the board's rules, each function with a contract that Verus proves:
identifiers and sprint states, hierarchical ordering and effective points,
dependency and parent cycles, the board and list views, search, sprint lifecycle
(start, close with spillover, rollover, bulk assignment, deletion), velocity,
burndown, cycle and lead time, goal reports, snapshot validation, the board
integrity scan (`inspect`) and its mechanical repairs, reading item and sprint
documents (the `+++` frontmatter block, parsed with the `toml` crate), and commit
scanning.

Every function takes the board's values and returns the values to persist. The
caller supplies what the store holds: the items in rank order, the configured
columns, the next free ID and the ranks handed out after the last item, and the
current time (in nanoseconds since the Unix epoch). `app/` holds the clock, a few thin adapters
(chrono times, the safe-fix writes, commit scanning over `git` output) and the
fractional figures (averages, rates, the ideal burndown line); the storage layer
that reads and writes the board's files is not part of this crate.

`tests/` exercises the library through its public API.
