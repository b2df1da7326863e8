# hexkingdoms

The rules of a hexagonal-board strategy game for three kingdoms, one of them
played by a person and two by the computer, with their behaviour stated in
contracts and proved with Verus.

- `src/` is the verified library: the board (`map`, `hex`, `table`), armies
  and their moves (`army`, `movement`, `recruitment`), markets and income
  (`buildings`, `round`), wars and peace (`war`, `political`), the computer
  players (`bots`, `pathfinding`, and `march`, which states how their armies
  walk), the start of a game (`setup`), saving and loading (`saves`) and
  what the interface shows and does on a click (`ui`).
- `tests/` runs the library on concrete games.
- `app/` is the Bevy program around the library: windows, models, materials,
  the camera, files and the main menu.
