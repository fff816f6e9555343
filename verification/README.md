# rustmameui

A front end for MAME, whose logic is a library verified with Verus.

- `src/` is the verified library:
  - `game.rs`: a game entry (ROM name, description, snapshot flag), the names and
    data URLs of snapshots;
  - `games.rs`: sorting game lists, the favourites, the list of playable ROMs,
    the verdicts of `mame -verifyroms` and of the snapshot archive;
  - `xml.rs`: the scan of the machine list that `mame -listxml` prints, read
    with `quick_xml`;
  - `config.rs`: the configuration, built from loaded settings and written as
    the text of the settings file;
  - `ui.rs`: the decisions of the user interface (filter, context menu,
    verification batches, the games a refresh keeps, the language);
  - `sorting.rs` and `text.rs`: a stable merge sort by a text key, and the
    byte-level order, equality and substring search of texts.
- `app/` is the program around it: the Dioxus user interface, running MAME,
  the files (settings, JSON lists, ROM and snapshot archives).
- `tests/` holds the tests of the library.
