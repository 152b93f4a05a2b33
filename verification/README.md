# scotland_yard

A rules engine and game server core for the board game Scotland Yard, written
in Verus: the executable code carries `requires`/`ensures` contracts and the
proofs that it meets them.

## Layout

- `src/` — the verified library.
  - `board.rs`: stations, tickets, the board graph and the connections-file
    parser (each connection added in both directions).
  - `gamestate.rs`: ticket inventories, players, moves and the game state,
    with their mathematical models.
  - `rules_spec.rs`: the rules as spec functions — legal legs, legal actions,
    applying an action, terminal positions — and the lemmas relating them.
  - `rules.rs`: the executable engine, proved equal to the spec.
  - `invariants.rs`: well-formed positions and the proof that legal play
    keeps them well-formed.
  - `history.rs`, `observation.rs`: Mr X's public travel log, the reveal
    schedule and what each player may observe.
  - `setup.rs`: starting a standard game (validation, the start-card deal).
  - `store.rs`: the in-memory game store behind the server: games kept by
    number in a `HashMap`, named by the decimal notation of the number.
  - `dto.rs`, `geometry.rs`: the API's transfer types and the board geometry
    read from the asset files.
  - `text.rs`, `decimal.rs`: line, field and number reading, decimal notation.
- `tests/` — tests of the library.
- `app/` — the HTTP server (axum): file reading, JSON, routing.

The server reads the connections file named by `SY_CONNECTIONS` and the
assets (`pos.txt`, `map.png`) in the directory named by `SY_ASSETS`.
