# tag_classifier

A library that sorts files into folders by the `[tag]` in their names, with
its rules proved by Verus.

- `src/` is the verified library: tag extraction and file-name correction,
  key normalisation, the folder dictionary and its file format, similarity
  matching and the grouping of similar folders, the decisions of a
  classification run, and the dictionary edits behind the user's commands.
  Each public function states its result in its contract; the laws of the
  library are stated in those contracts or as public proof functions
  (`lemma_...`).
- `tests/` runs the library on concrete values.
- `app/` is the desktop side: it reads folders, moves and copies files,
  loads and saves the settings and dictionary files, and hands plain values
  to the library.
