# tetris

The rules of a falling-block puzzle played in a bottomless well, written in
Verus and proved against their contracts, with a small macroquad program
around them.

- `src/piece.rs` — the seven kinds, their rotation states and wall kicks, and
  the falling piece.
- `src/well.rs` — the stacked rows as bit masks keyed by row: collision,
  stamping, clearing full rows, the drop distance, shifting and forgetting
  far rows.
- `src/bag.rs` — the seven-piece bag randomizer.
- `src/ledger.rs` — score, lines, combo and back-to-back bookkeeping.
- `src/game.rs` — the game state and its moves: sliding, turning with kicks,
  spin detection, locking, hard drops, gravity steps and rebasing.
- `src/glyphs.rs`, `src/scene.rs` — the bitmap font and what is visible on
  screen.
- `src/arith.rs` — contracts for the saturating and remainder operations of
  the integer types that the rules use.
- `app/` — the window, the keyboard, the frame clocks (floating point) and the
  painting.
