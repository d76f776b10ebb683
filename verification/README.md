# fastlint

FastLint checks files in any language for unresolved merge-conflict markers
(errors), trailing whitespace and common misspellings (warnings), and reports
them sorted by file, line, column and rule.

- `src/` is the verified library. `checks/` holds the three checks and
  `run`, which checks many files and sorts the findings; `text.rs` defines the
  lines of a text; `paths.rs` and `order.rs` the order of paths and sequences;
  `sort.rs` a stable merge sort into report order; `skip.rs` which paths
  name lock files; `output.rs` the human report;
  `laws.rs` properties of the library as a whole.
- `app/` is the command line program: argument parsing, walking the
  directories, reading files, JSON output and the exit code.
- `tests/` exercises the library.
