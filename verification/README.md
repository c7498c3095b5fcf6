# Omarchy arcade rules, verified

The game rules of the Omarchy arcade collection, written in Verus and proved
against their contracts.

- `src/` is the verified library:
  - `twenty48` — sliding, merging, spawning, undo and the board rules of 2048;
    `twenty48_storage` — the rules a saved 2048 document must meet.
  - `minesweeper` — boards, the safe first reveal, flood fill, flags, chords
    and the game's invariants; `minesweeper_storage` — records and save rules.
  - `freeski` — run phases, terrain hashing and ramp identity, practice
    lessons, the save version gate and slalom course records; `chase` — the
    pursuit's warning and spawn countdown.
  - `arcade` — the collection shelf: identifiers, titles and selection.
  - `audio` — framing synthesised PCM as a WAVE file.
  - `rng` — the few draws the games make from `rand`, behind trusted wrappers.
- `tests/` runs the library on concrete games.
- `app/` is ordinary Rust around it: 2048's and Minesweeper's save files on
  disk (JSON through serde), command-line options, sound-cue synthesis and
  playback, and Free Ski's floating-point skier and creature simulation.
