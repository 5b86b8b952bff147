# museum_maze

A first-person museum maze: a randomly carved maze whose walls hang
artwork, seen through a software framebuffer in a map view and a raycast
view. The library in `src/` is verified with Verus; the window, input, image
files and floating-point rendering live in `app/`.

Layout of `src/`:

- `grid`: the maze as rows of characters, walks and reachability.
- `maze`: maze generation by a randomised depth-first carve. A generated
  maze has odd sides, a wall border, open chambers at the odd cells, the
  start and finish marks, and exactly one passage fewer than chambers open,
  all connected: the open cells form a tree.
- `layout`: the breadth-first search that picks the wall showing the final
  picture, stated step by step and by what it finds.
- `exhibits`: which artwork hangs on which wall face (dealt round-robin in
  scan order).
- `framebuffer`, `color`, `renderer`: pixels, colours and the drawing
  routines of both views.
- `movement`: the collision test for the player's corners.
- `skull_kid`: placing the Skull Kids on plain path cells.
- `textures`: wall textures and the texture manager.
- `names`: which texture files hold artwork, and the texture loading errors.
- `random`: the one call into `rand` (a shuffle).

`tests/` holds the tests.
