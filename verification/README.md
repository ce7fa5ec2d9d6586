# goto

An intelligent directory navigator: it indexes workspace roots, matches
queries against directory paths, ranks the matches by recency, frequency,
learned choices and project type, and offers an inline picker.

## Layout

- `src/` is the library, verified with Verus. Each module states its
  behaviour over mathematical models (`Seq`, `Set`, spec functions):
  - `matcher`: query tokens matched in order against a path, with `^`/`$`
    anchors on `/`-separated segments, ignoring case.
  - `paths`: Unix path components, joining, lexical normalisation,
    component-wise prefixes and final names.
  - `config`: ignore rules (default names, names and path prefixes from the
    configuration file, `~/` expansion).
  - `search`: which directories a search or the picker keeps, and the
    integer features (visit counts, latest visit, learned counts) the
    ranking uses.
  - `storage`: record keys, query-mapping counts, directory records, and
    which records an index run or a vanished path removes.
  - `ui`: selection moves, popup layout, line truncation, key handling and
    the terminal's cursor report.
  - `workspace`, `project_detect`, `cli`, `models`, `text`: the remaining
    rules and the shared character helpers.
  Public proof functions named `law_*` state properties that span calls.
- `app/` is the program around it: command-line parsing, the sled/bincode
  store, TOML configuration, directory walking, floating-point scoring and
  the terminal loop.
- `tests/` runs the library on concrete values.
