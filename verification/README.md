# rsslide

Slide decks written in YAML, made into PDF pages; Marp Markdown decks
imported into that YAML format.

## Layout

- `src/` — the library, verified with Verus. Every function carries a
  contract over a mathematical model of its inputs and outputs:
  - `model` — the deck model and the checks a subtitle or a table must pass;
  - `importer::marp`, `importer::emit` — the Marp importer (front matter,
    slide splitting, per-slide parsing) and the YAML writer;
  - `layout` — greedy word wrapping of body text;
  - `css_vars` — `var(--name)` flattening for SVG pictures;
  - `highlight` — code blocks cut into lines and colored runs (with syntect);
  - `page` — what a slide draws and in which order, its picture source and
    page label;
  - `fonts` — the font families that stand for generic SVG family names;
  - `assets`, `config`, `cli` — language icons, colors, command-line choices;
  - `text` — character-level primitives shared by the above.
- `app/` — the `rsslide` program: command line, file reading and writing,
  YAML and TOML reading, and the PDF drawing, which measures in
  floating-point millimeters.
- `tests/` — tests of the library on concrete values.
