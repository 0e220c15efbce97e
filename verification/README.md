# wolges_wasm

The verified core of the browser (WebAssembly) front end of a word-game
engine.

- `src/` is the Verus library: the rule values the front end reads
  (`rules`), the unseen tiles of a tally (`tiles`), dealing them to the
  other players before a play is scored (`deal`), the checks on a
  simulation request (`sim_request`), filling the bag, shuffling it and
  dealing a simulated position (`bag`), the table of running simulations
  (`sim_registry`), and caches of named values (`named_cache`).
- `app/` holds the entry points that JavaScript calls. They parse JSON
  requests, call the engine modules (move generation, lexicons, play
  scoring, simulation) and use the library for the rest.
- `tests/` runs the library on concrete values.
