# wanna

A list of things one wants to do, kept in four quadrants (energy high/low ×
clau high/low) and ordered by hand. One server (`wannad`, SQLite) is shared
by a terminal client (`wanna`); a one-time import (`wanna-migrate`) brings in
an old Google Tasks list.

## Layout

- `src/` is the library, verified with Verus:
  - `text`: base-62 digits, lexicographic order, trimming.
  - `pos`: the fractional sort keys (`between`, `after`, `n_between`), with
    proofs that a new key lies strictly between its neighbours and stays
    well formed.
  - `model`: wants, patches (partial updates, last writer wins per field),
    quadrants and the `(pos, id)` / done-date orders.
  - `input`, `app`: the terminal client's state machine. A key press yields
    the new state plus the effects (store and queue an operation, ask for a
    sync) that the caller carries out.
  - `moves`: what the keys that move wants do to the quadrant lists
    (reordering, moving to another quadrant, done, undo, delete, add).
  - `store`, `sync`, `client`, `config`: the outbox operations, one round of
    sending it, how server answers and event lines are read.
  - `server`: request checks, what an upsert or a patch writes, the
    revision counter, authorization and static paths.
  - `ui`: cut and padded titles, row numbers, dialog placement.
  - `migrate`: notes and their metadata line, the two-level axes, import ids
    and the order and keys of imported wants.
- `app/` is the program around it: terminal drawing and input (ratatui,
  crossterm), HTTP (axum, reqwest), SQLite (rusqlite), JSON and TOML.
- `tests/` runs the library on concrete values.
