# buck

The rules of a small roguelike, verified with Verus: dungeon generation (rooms, tunnels,
monster placement), movement, combat, the enemies' turns, and the decisions behind drawing.

- `src/` is the verified library:
  - `colors` — the palette;
  - `rect` — rooms as rectangles, their centre and overlap;
  - `map` — tiles, the tile grid, carving rooms and tunnels;
  - `game` — the message log and the game state;
  - `object` — objects, fighters, damage, attacks and deaths;
  - `turns` — blocking, moving, the player's and the enemies' turns, key handling;
  - `dungeon` — random dungeon generation (through `rand`);
  - `reach` — walks over open tiles, and the proof that a generated dungeon is connected;
  - `world` — the state kept between turns, its laws, a new game, a round of enemy turns and
    a whole turn of play;
  - `render` — tile shading, drawing order, the names under the mouse and the rows of the
    message panel.
- `app/` is the program around it: the libtcod window, input, field of view and drawing.
- `tests/` exercises the library on concrete values.
