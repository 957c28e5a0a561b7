# circuit

Build circuits in the terminal and watch them work: batteries, resistors,
capacitors, LEDs, switches, transistors, logic gates, clocks, counters,
displays and 555 timers on a grid, wired up and powered on.

The library in `src/` is verified with Verus. It holds everything about
the board that is exact:

- `geom`, `kind`, `part`: sides of a cell, the kinds of part, the cells a
  part takes and which way its pins face.
- `board`: placing, moving, turning and deleting parts, laying wires and
  joining crossings, with the board's consistency kept by every change. A
  changed part keeps the wires on pins that stay where they were; only
  wires to pins that moved come loose.
- `forest`, `net`: the nodes the wires and pins make. The nodes are shown
  to be exactly the groups of points that wires join.
- `numbers`, `words`, `order`, `save`, `reload`: a board as text and back.
  A saved board is proved to load back as the board it was saved from.
  This holds of every consistent board, since every part's value is a
  number written as `f64` text, which the board's invariant keeps.
- `chip`: what the logic chips decide each step.
- `lessons`, `labels`: the challenges, the parts they start with, and
  short texts for the screen.
- `editor`: what each key does to the board and the cursor, while drawing
  wire or carrying a part; what needs the screen or the solver comes back
  as an action for the program.

`app/` is the terminal program around it: the screen and the key loop,
the files in `~/.circuit/`, and the solver, which works in floating point.
