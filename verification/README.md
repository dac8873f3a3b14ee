# dinochrome

The simulation rules of a top-down maze tank game, verified with Verus.

- `src/` is the verified library: the cell grid and its connectivity
  (`grid`, `walk`), seeded maze generation (`maze`, with the random source
  behind the trusted wrappers of `random`), shortest routes by A* (`path`),
  the drone kinds and their cell-level decisions (`drone`), factory builds
  (`factory`), hit points (`health`) and the screen state machine (`screen`).
  Every public function carries a contract, and the laws that relate them
  are public proof functions.
- `app/` is plain Rust around it: the floating-point half of the game
  (world geometry, collision, line of sight, hull and turret motion, weapon
  cooldowns, camera framing) and the rolls that choose among the options the
  library computes.
- `tests/` runs the library on concrete mazes and routes.

The engine layer of the game (its systems, plugins, menus and rendering) is
not part of this crate, and the engine is not one of its dependencies: that
layer only wires input, timers and drawing around the rules kept here, and the
one decision it made itself, which keys each screen answers to, is
`screen::transition`.
