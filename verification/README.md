# map_editor

The core of a 2D tile map editor, with its behaviour proved by Verus.

- `src/` — the verified library: the map grid (`grid`, `flood`), decimal text and
  white space (`text`), the map file format (`map_file`), the palette of tile images and
  the tileset file (`palette`), the editor state and its operations (`editor`), and the
  canvas decisions (`canvas`).
- `app/` — the program: window, side panel, file dialogs, reading and writing files,
  textures and the floating-point screen geometry.
- `tests/` — tests of the library on concrete values.
