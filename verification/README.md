# trainyard

The game logic of a train-routing puzzle, written in Verus and proved
against its contracts.

- `src/color.rs`: train colours and how they mix when trains meet.
- `src/connection.rs`: a piece of track joining two sides of a tile.
- `src/tracktile.rs`: a tile of track: its shape (straight, bend, crossing,
  and the two-track shapes Z, M, J), trains coming in, meeting halfway,
  merging on the way out, switching, and leaving. What the screen should show
  of a step is returned as events.
- `src/tracktile_laws.rs`: properties that span several steps of a tile, such
  as that trains accepted without a crash can always be sent out after they
  have met and merged.
- `src/tiles.rs`: the other kinds of tile (sources, sinks, rocks, painters,
  splitters).
- `src/text.rs`: byte-level helpers for reading text: splitting, digits,
  decimal numbers, and cutting strings at ASCII delimiters.
- `src/levels.rs`: the level catalogue, the text format in which levels are
  written, and the player's progress.
- `app/`: what stays outside the proofs: saving and loading the catalogue
  with serde_json, the particle trait drawn with sdl2, and the floating-point
  placement and drawing of tiles with macroquad.
- `tests/`: tests of the library on concrete values.
