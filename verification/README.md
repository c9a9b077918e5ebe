# mimeassoc

Inspect and edit which application opens which mime type on a freedesktop.org desktop:
`.desktop` entries, the `mimeapps.list` association scopes, and the shared mime info
database.

- `src/` is the library, verified with Verus: parsing desktop entries and mimeapps lists,
  the chain of association scopes and the assignments it makes, the command line tool's
  commands and their output, the editor's stores with their undo history, and the laws that
  hold of them (proof functions named `lemma_*`).
- `app/` is the command line tool around it: it finds and reads the files, resolves
  programs on `PATH`, parses the arguments with clap, runs a command of the library, writes
  changed mimeapps lists back, and prints the output as text or JSON.
- `tests/` runs the library on concrete values.
