# moss

The core of the moss package manager, written in Verus: the functions of
the library carry contracts, and Verus proves that the code meets them. The
few calls into other crates and std that Verus cannot read (SHA-256,
hexadecimal encoding, URL parsing and joining, `char::is_alphanumeric`,
`String::push`) stand in small wrappers whose contracts are trusted; each
says in its doc comment what it claims of the call.

## Layout

- `src/` — the verified library.
  - `text`, `path`, `digest`: text, numbers, Unix path joining and splitting,
    SHA-256 and hexadecimal digests.
  - `dependency`: `kind(name)` dependency and provider strings, and ordered
    sets of them.
  - `stone`, `package`: the records of `.stone` archives, package metadata and
    its conversion to and from metadata records, package identity, flags and
    ordering.
  - `db`: the rows the metadata, layout and state databases store, and how
    they are read back.
  - `registry`: plugins serving package information, the registry that
    consults them by priority, the package graph and transactions.
  - `repository`, `config`, `installation`, `state`: repositories, the places
    of configuration files, the directories of an installation, and system
    states.
  - `index`: building a repository index, one package per name.
  - `list`: the lines of a package listing and the synchronizations shown
    in it.
  - `info`, `paragraph`: the packages described for a name, and a
    description cut into paragraphs and filled into lines of a given width.
  - `client`: the planning behind installation, removal, upgrades, pruning,
    cache locations, verification and boot entries.
- `tests/` — tests of the library on concrete values.
- `app/` — the `moss` command line: argument parsing, the sqlite databases,
  configuration files, locking and the filesystem work, all around the
  library.

The metadata, layout and state databases are SQLite files reached through
diesel; the `libsqlite3-sys` dependency, with its `bundled` feature, only
builds SQLite for diesel and holds none of the project's own logic.
