# memfrob

Generative art sketches (L-systems, Koch curves, noise fields, spiralling
squares) drawn with nannou.

- `src/` is the verified library:
  - `lsystem`: L-systems expanded into turtle instructions, with the stack
    discipline of `[` and `]`, and the laws relating expansion depth to
    rewriting.
  - `text`: searching, splitting, trimming, and decimal/char parsing.
  - `arguments`: the command-line values and their parsers.
  - `color`: colors by SVG/CSS3 name (through `palette`) or hex code.
  - `pieces`: the catalog of pieces, the Koch curve, and the square-spiral
    subdivision rule.
  - `texture`: which point each pixel of an image is shaded at.
- `app/` is the program: window, drawing and floating-point geometry with
  nannou, command line with clap.
- `tests/` exercises the library on concrete values.
