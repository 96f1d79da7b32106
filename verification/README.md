# strategy_haven

The verified core of a tile based strategy game.

- `src/game`, `src/world`: tile types, sets of tile types as bit flags,
  tile grids and their transforms, and three terrain generators:
  - `world/ms`: an AC4 constraint solver over patterns cut from a reference
    grid, with their rotations and mirror images;
  - `world/wfc`: an overlapping wave function collapse over a pattern
    palette;
  - `world/terrain`: the tile by tile generator's choices, propagation and
    clean-up.
- `src/server`: what the game server decides for a request about users,
  guilds, games and players, given the rows its tables hold.
- `src/main_menu`: the states of the main menu.
- `app/`: a command line front end that reads a reference grid, runs a
  generator and prints the result; and the parts that draw by floating-point
  chance.
- `tests/`: tests of the library.
