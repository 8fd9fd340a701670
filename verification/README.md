# clj-pulse

A Clojure language server whose logic is verified with Verus.

## Layout

- `src/`: the library. Most of its functions carry a contract, and Verus proves it. A few
  dozen small ones are trusted: they only make a call into another crate or into std.
  - `syntax`, `rope`, `archive`, `edn`, `json`, `index/store`, `chars` hold the calls into other
    crates and into std that the proofs take as given, each with what is claimed of it.
  - `document` keeps the open documents; `lsp`, `text`, `words`, `path`, `sort` and
    `collect` are what the rest is built from.
  - `index/` reads source files into an index of symbols, usages and locals, and keeps it
    as files come and go.
  - `handlers/` answers the requests of an editor: completion, hover, navigation,
    references, rename, highlights, signatures, indentation, code actions and more.
  - `classpath`, `config`, `leiningen`, `lgx`, `libraries` and `projects` find out what a
    project consists of.
  - `diagnostics` and `kondo` produce what the editor shows as findings, and
    `clojuredocs` the documentation of ClojureDocs.
- `app/`: the program around the library: the protocol, files, processes and archives.
- `tests/`: tests of the library from outside.

Laws that relate several functions, such as that renaming a keyword edits every place or
none, or that libraries never shadow the project, are public proof functions whose names
start with `law_`. They stand in the module that they speak of.
