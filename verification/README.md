# breaky

A drum loop slicer and step sequencer for the terminal, with its logic verified in Verus.

- `src/` is the library. It holds the beat lines and what their commands do to each step, the
  sequencer, the pattern editor, the command line and its variables, slices and banks, onset and
  tempo decisions, what every audio frame reads, what the screen shows, and the session that ties
  them together. Every function states what it returns or changes, and the laws that relate them
  are public proof functions.
- `tests/` runs the library on concrete values.
- `app/` is the program around it: files, YAML, the terminal, audio decoding and output, and the
  floating-point arithmetic on samples.

The library holds no floating-point number. A number is carried as its IEEE 754 bits, together with
the text that shows it, and compared by the order of those bits. A level between silence and full
is held as a fraction. Where single or double precision decides a result, `float` does its rounding
in whole numbers. Times are nanoseconds that the caller passes in.

| Module | What it holds |
|---|---|
| `text` | characters, trimming, numerals, alphabetical order |
| `number` | numbers as bits, their order, ranges |
| `float` | the rounding of single and double precision, in whole numbers |
| `config` | beat lines, their columns on screen, saved configurations |
| `engine::effects` | command segments and the effects of each step |
| `engine::state` | what is being played |
| `sequencer` | the pattern in time |
| `editor` | the cursor and the keys of the pattern editor |
| `variables` | variables, their ranges, the commands that set them |
| `commands` | the command line, saving and reloading |
| `analysis` | onsets, tempo, slices |
| `banks` | files, banks of slices |
| `audio::playback` | which sample each frame reads |
| `ui` | keys, and the contents of the screen |
| `session` | what every key does |
