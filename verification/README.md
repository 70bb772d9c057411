# ochna

A local code index. Source files in Rust, Go, Java, C, C++ and Zig are parsed into
symbols and call sites, calls are resolved to edges with a confidence tier, and the graph
is searched, walked, compared and judged.

The library under `src/` is written in Verus: what each function returns is stated in its
contract and proved.

- `parser`: syntax trees as plain values, what is extracted from them in each language,
  the symbol index, and the resolution of calls.
- `db`: the records of the index, the tiers of confidence, the reasons why a reference
  has no target, and the version of the stored form.
- `commands`: what the commands decide and show. `index` is about runs over files,
  `status` and `quality` about trust, `select`, `listing`, `tests_for` and `impact` about
  queries, `changes`, `snapshot` and `diff` about comparisons.
- `arguments`, `paths`, `text`, `ordered`, `sets`: the values that commands accept, paths,
  texts, stable sorting, and sets.

Laws that relate several functions stand as public proof functions beside them, the longer
ones in modules of their own. For one, a run over an index that is there, which parses
only the files that differ and resolves only the calls that they concern, is proved to
leave the symbols, calls, edges and unresolved references that a first run over the same
files makes, as long as no two files hold symbols with the same id. Paths without a colon
see to that.

Outside crates do the parsing (`tree-sitter` and its grammars) and the hashing
(`rustc-hash`) and keep short lists (`smallvec`). Functions that call them are marked
`#[verifier::external_body]`, and what is taken on trust of each call is in its contract
and its comment.

`app/` is the program around the library: the command line, the SQLite database, files,
Git and JSON.
