# deadlockrail

A railway deadlock checker, written in Verus. Given the trains of a railway
area (their routes, the routes they hold at the start, the routes each may
move on to, and the conflicts between routes), it decides whether every
train can leave the area, and if so gives a plan.

## Layout

- `src/` — the verified library:
  - `problem.rs`, `raw_problem.rs`, `raw2023_problem.rs`: the problem and the
    input formats, and the conversion of the 2021 benchmark format;
  - `sat.rs`, `state.rs`, `solver_statespace.rs`: the state-space check. Steps
    are added to a propositional instance one at a time; the search is a
    state machine that names the query to put to a SAT solver and takes its
    answer back. Its instance is proved both sound and complete for the step
    rules: every model is a run of the rules, and every run of the rules
    (with its trains finished, for the goal query) is a model;
  - `diff_logic.rs`, `solver_cycles.rs`: the movement-graph check, whose
    difference-logic instance has a model exactly when the trains have a
    schedule;
  - `plan.rs`, `plot.rs`: the text forms of a plan;
  - `text.rs`, `seqs.rs`: strings and sequence lookups.
- `app/` — the program: command-line options, reading files, logging, and
  the solvers behind the two checks.
- `tests/` — tests of the library.
