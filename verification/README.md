# mybot

A command-line tool that scans media files, recognises movies
(`title + year`) and episodes (`SxxEyy`, `NxM`) in their names, renders new
names from a template, and plans (and optionally carries out) renames, moves
or copies. Movie titles can be checked against the TMDB search API.

## Layout

- `src/` — the verified library (Verus):
  - `text` — characters and strings: Unicode whitespace, collapsing and
    trimming, searching and replacing, decimal numbers;
  - `parser` — reading a file name as movie, episode or unknown;
  - `template` — rendering `{title}`, `{year}`, `{season[:NN]}`,
    `{episode[:NN]}` and `{ext}`;
  - `cli` — the command line;
  - `matcher` — the TMDB search request and reading its response;
  - `planner` — the per-file planning decisions;
  - `paths` — `std::path` operations on string paths.
- `app/main.rs` — the program: directory scanning, HTTP via `curl`, the
  planning loop, file operations, and the float-valued match score.
- `tests/` — tests of the library.
