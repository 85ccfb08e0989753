# word_shield

A terminal typing game: words drift from the right edge of the field towards
a shield on the left; typing a word's letters pushes it back and scores points,
and every letter that reaches the shield costs a shield. Results go to a
highscore file, `name;score;level;timestamp` per line, from which the game
shows the ten best.

- `src/` is the game's logic, verified with Verus:
  - `structs.rs`: the field, the words, the player and the command line arguments;
  - `game.rs`: typing, moving, the shield, adding words, levels and speed, keys;
  - `render.rs`: what the screen shows, as texts at positions;
  - `highscore.rs`: reading the highscore file, sorting and the table;
  - `text.rs`: numbers, lines, splitting, the dictionary file;
  - `random.rs`: chance, from `rand`.
- `app/main.rs` is the program: command line, keyboard, screen, files, clock.
- `tests/` exercise the library on concrete values.
