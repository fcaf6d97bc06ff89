# deadcode

A dead-code finder for Python projects. Given a project configuration
(source roots, root groups, rules) and an index of the project's modules
(symbols, imports, references, member accesses, classes, signatures, test
fixtures, call-argument types), it computes which symbols the configured
roots keep alive and reports every other symbol as unused, together with
diagnostics for receivers it could not resolve and expansions it does not
support.

The library under `src/` is written in Verus: every function carries a
contract, and Verus proves all of them but one, the wrapper around
`char::to_string` in `text`, whose contract is trusted.

- `text`, `paths`: strings, dotted names and file paths.
- `report`, `order`, `diagnostics`: findings and diagnostics, their order.
- `config`, `errors`, `cli`, `root_order`: project configuration, errors,
  command line, and the proof that the order of the configured roots does
  not change how they resolve.
- `index`, `tables`, `hierarchy`, `resolve`, `flow`, `types`: the symbol
  index, lookups by name, class hierarchy, name resolution, class flows
  between call sites, and type bindings.
- `pool`, `reach`, `metadata`, `analysis`: the walk from the roots (with its
  termination argument), what live classes keep alive, and the report.
- `syntax`, `reader`, `collect`, `call_results`, `roots`, `sources`: the
  syntax tree of a module as plain values, and the module reader that walks
  it: the module's symbols (functions, classes, methods, fields and
  attributes, also those a method assigns through `self`), its pytest
  fixtures, its imports resolved against the project's modules and the
  re-export table, its entry guard; what its code records (name
  references, member references on receivers of known class, constructions
  with the fields their keywords name, the classes passed to functions,
  receivers of unknown class, `**` payloads that cannot be expanded, and
  the functions decorator rules register); its classes with their bases,
  the signatures of its functions and methods, the members its functions
  use on results of local calls; its roots (entry points of root groups,
  test functions and `autouse` fixtures of test files, the entry guard,
  allow comments); and the two passes that index all modules of a project.
- `scan`: what the reader of a module derives from plain values (the
  classes an argument can carry, the fields of a class and its bases, the
  fields named by `str.format` templates, and more).
- `allow`, `reexports`, `project`: allow comments, the re-export table, and
  assembling an index and a report for a project.

`app/` is the command-line program around the library: reading the
configuration and the source files, and printing the report as text or
JSON. `tests/` exercises the library on concrete projects.

The program has no Python parser: the parser crates the analyzer is
written against are not published on the crate registry, so `app/` hands
the module reader a syntax tree without statements for every file. A
module is then indexed by its name, its roots and its allow comments, so
on a real project the program reports every symbol that no allow comment
keeps. The reader and the analysis over parsed trees are in the library
and are exercised by the tests on trees built by hand. Value bindings and
module-level values, which the reader does not collect, stay empty.
