# just_enough_vcs

The core of a centralized version control system for binary assets, written
in Verus: the functions of the library state their behaviour in `requires` /
`ensures` and Verus proves it. Where a result comes from the standard
library's path operations, it is stated for paths made of a text, over
named results of those operations.

Layout:

- `src/` — the verified library:
  - `index_source` (+ `alias`): index sources (`[~]id/version`) and the alias
    file layout of local ids;
  - `mapping`, `mapping_macros`, `mapping_pattern`: mappings of paths to index
    sources, their text forms and parsers;
  - `sheet` (+ `v1`): sheets of mappings, their edits and their binary format
    (writer, reader, lookup of one mapping);
  - `sheet_tree`: a directory tree over the mappings of a sheet;
  - `storage`: chunking of files (content-defined, fixed size, by lines), chunk
    statistics and the index file of chunks;
  - `asset`: names of lock and temporary files of assets;
  - `config`, `constants`, `workspace`: configuration formats and types,
    placeholders of constant texts;
  - `hex_display`, `string_proc`, `compare`, `text`: text utilities.
- `tests/` — tests of the library, run against the compiled crate.
- `app/` — the file system, async and serde code around the library.
