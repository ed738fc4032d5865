# glit

An interactive git log viewer for the terminal: fuzzy search over the
commit history, a diff preview, the files a commit changed, and a blame
view.

- `src/` is the library, verified with Verus: the parsers of git's output
  (`git`), the cache and the viewer's state machine (`state`, `table`),
  presentation logic such as dates and colours (`ui`), the fuzzy matcher
  and lowercasing it relies on (`matcher`), and character and number
  helpers (`text`, `num`).
- `app/` is the program around it: it runs git, draws with ratatui, reads
  keys with crossterm, copies to the clipboard, and runs loads on threads,
  handing every decision to the library.
- `tests/` exercises the library on concrete inputs.

The caches are kept in `table::Table`, a vector of entries with distinct
keys, and not in std's `HashMap`. The caches are keyed by `String`s, and
vstd's specification of `HashMap` says what a lookup returns only for key
types that satisfy its key model, which `String` is not known to satisfy.
Over a `HashMap<String, _>`, Verus proves nothing about what a lookup
returns, so the cache laws could not be proved over one.
