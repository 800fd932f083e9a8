# xshell_session

Opens Xshell session files (`.xsh`) and session archives (`.xts`) as
temporary SSH launches. The parsing and the decisions are proved in Verus;
what a path's extension is rests on `std::path::Path::extension`, whose
contract states it for bare file names and for paths that end in `.ext`,
with trailing `/`s and a final `/.` ignored and a final `..` having none.

- `src/text.rs` — characters: Unicode white space and trimming, ASCII case,
  line splitting, the byte order of strings, `u16` parsing.
- `src/fields.rs` — key/value tables and "first key in sorted order" lookups.
- `src/ini.rs` — the INI dialect of session files, its lookups, and the
  laws that blank, comment and key-less lines change nothing.
- `src/session.rs` — from session text to a `TemporarySshLaunch`, and the
  laws about passwords, ports and trimmed fields.
- `src/path.rs` — recognising `.xsh` / `.xts` paths.
- `src/archive.rs` — choosing the session to open from an archive, one
  entry at a time.
- `src/uri.rs` — the `uri` command's target and notice.
- `app/main.rs` — the command line: reads files and archives (`zip`) and
  asks the library what to do.
