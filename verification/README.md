# bkupeval

A photo date changer and a backup evaluation tool, with their logic verified
by Verus.

- `src/` is the verified library. The photo side lists the images of a folder
  with their dates (`listing`), reads a folder's date from its name and checks
  the settings of an update (`settings`, `date_text`), recomputes each file's
  date and new name (`updates`) and plans the copies that set those dates
  (`copies`). The backup side converts a disc catalogue exported as XML into
  fixed-layout list records (`catalog`), lists a hard drive the same way
  (`lists`, `records`) and merges the two sorted lists into files found the
  same, with another size, or not at all (`evaluate`). `round_trip` holds the
  laws that what the tool writes, it reads back.
- Calls into chrono and regex stand behind a few trusted wrappers in
  `dates.rs` and `patterns.rs`, each with a doc comment saying what its
  contract claims.
- `app/` is the GTK program around the library: windows, file and directory
  reading, EXIF, and the exiftool runs.
- `tests/` runs the library on concrete values.
