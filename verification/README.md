# battleship

A two-board Battleship against the computer. The game's logic is a verified
library under `src/`; the window, drawing, mouse and keyboard live in `app/`.

- `src/board.rs`: the board, its model as rows of fields, placing ships.
- `src/sinking.rs`: finding a hit ship's parts and marking it sunk.
- `src/shooting.rs`: resolving a shot, and why shots never move ships.
- `src/fleet.rs`: random fleet placement, and why placed ships never touch.
- `src/ai.rs`: the computer's choice of target and its hunting queue.
- `src/look.rs`: how each cell is drawn, and why hidden ships give nothing away.
- `src/game.rs`: one frame of the game as a step from state and input to the
  next state and what the caller has to draw and time.
- `app/`: the macroquad front end that feeds frames to `Game::step`.
