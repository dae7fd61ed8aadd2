# petri_net_legacy_editor

A Petri net editor's core, verified with Verus: the net model and its
incidence tables, the reachability graph read as a Markov chain, the
discrete rules of the token-game simulation, and the legacy NetStar `.gpn`
and `GPN2` file formats.

Layout:

- `src/` — the verified library. Floating-point quantities of the model
  (positions, delays, distribution parameters, stationary probabilities)
  are carried as IEEE-754 bit patterns; `ieee` states what they denote.
  - `model` — places, transitions, arcs, the `Pre`/`Post`/inhibitor
    matrices, and the operations and validation on them.
  - `legacy` — reading and writing the legacy binary format.
  - `io` — the framing of `GPN2` files and the version migration.
  - `markov` — the reachability graph and what is known of its
    stationary distribution.
  - `sim` — which transitions may fire, which one fires, how tokens move,
    how the log stays bounded.
  - `atf`, `dump`, `settings`, `editor`, `text`, `ieee` — text output, the
    dump tool, settings bounds, the editor windows' computations, helpers.
- `app/` — a command-line front end: file I/O, JSON through serde, the
  timed simulation loop, the stationary solver, and the dump tool.
- `tests/` — tests of the library.
