# factorio_solver

Production-chain planning and block layout for Factorio, verified with Verus.

- `src/` is the verified library: which recipe makes an item and which
  machine crafts it under a player's unlocks (`chain`), the order steps are
  built in, and how a step's machines, inserters, belts and poles are laid
  out in columnar cells and checked afterwards (`layout`), plus the recipe,
  technology and prototype registries they read and template extraction.
- `app/` reads the game data and template files as JSON, carries the
  floating-point rates (the rate solver, belt sizing, the delivered-rate
  check) and runs the plan-to-block pipeline on top of the library.
- `tests/` exercises the library on small fixtures of game data.
