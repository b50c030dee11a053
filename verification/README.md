# MediaNest

A local photo and video library: it indexes a library folder, finds
duplicates, imports from cards with destination templates, keeps an undoable
trash, and encrypts protected albums.

- `src/` is the library, verified with Verus: the catalogue queries
  (`catalog`), duplicate detection (`dedup`), the encrypted container format
  and album keys (`crypto`, `protected`), imports and their destination
  templates (`import`, with the dates of `calendar`), the trash and undo
  decisions (`ops`), media serving, file kinds and content hashes (`media`),
  the incremental scan, EXIF summaries and the records of indexed files
  (`indexer`), and the text and sequence helpers they share (`text`,
  `seqs`).
- `app/` is the ordinary Rust around it: the SQLite catalogue, the file
  system, the indexer and watcher threads, ffmpeg, and the commands and
  protocols the interface calls.
- `tests/` runs the library on concrete values.
