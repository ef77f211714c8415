# specflow-helper

A step-binding index for SpecFlow projects, with its behaviour proved by Verus.

It reads the `[Given(...)]`, `[When(...)]` and `[Then(...)]` attributes of C#
step definitions, reads the steps of `.feature` files (And/But inherit the
kind of the step before them within a scenario or background), and resolves a
step to the first binding whose anchored regular expression matches it. An
on-disk cache keyed by each file's modification time and size lets a rebuild
skip unchanged files.

Layout:

- `src/parser.rs`: binding attributes in C# source.
- `src/feature.rs`: steps of a feature file.
- `src/matcher.rs`: compiled bindings and step lookup (the `regex` crate does
  the matching).
- `src/index.rs`, `src/cache.rs`: the decisions of an index build and the cache
  entries.
- `src/cli.rs`, `src/output.rs`: command-line parsing and the JSON and text the
  commands print.
- `src/text.rs`: lines, strings and digits.
- `app/main.rs`: the command-line program: arguments, the file system, the
  environment, the JSON cache file and standard output.

Each module ends with the properties proved of it for all inputs, as public
proof functions named `law_*`.
