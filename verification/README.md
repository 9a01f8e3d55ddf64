# autoclicker

A screen-area auto-clicker. The verified library (`src/`) holds its logic:

- `engine`: the Idle/Running/Paused state machine and its laws;
- `engine::zigzag`: the zig-zag path of points over the screen area, with an
  exact specification and laws on its shape;
- `engine::driver`: the decisions of the clicking loop as a function from
  state and event to next state and action;
- `input`: the matcher that turns held keys into hotkey commands;
- `config`: the hotkeys and their default.

`app/` is the program around it: the configuration file, the threads, the
channel, global key events, mouse clicks and the window.
