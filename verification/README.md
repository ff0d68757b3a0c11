# sea2d

A 2D pixel-art game: go ever deeper underground and beat the enemies on the
way. Every level is generated by wave function collapse, so no two runs are
alike. The game runs as a server, a client, or both at once.

## Layout

- `src/` is the game's logic as a library verified with Verus: the level
  generators (tile-based and overlap-based wave function collapse), levels read
  from pictures, the autotiler, the player's controls, health and exits, the
  enemies' pursuit by breadth-first search, the game's states, the game clock,
  and the framing and tagging of network packets.
- `tests/` exercises the library on concrete values.
- `app/` is the program around it: the SDL window, drawing, positions in
  floating point, files, and the TCP client and server.

## Running

`sea2d server`, `sea2d client [address:port]` or plain `sea2d` for both at
once (the server listens on 127.0.0.1:6000); `sea2d --wfc` shows the
tile-based generator, N making a new grid. SDL2, SDL2_image and SDL2_ttf must
be installed.
