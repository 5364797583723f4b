# apibump

ApiBump detects semantic changes to the public API of a Python package between two git
revisions and recommends the SemVer bump they call for. The Python side is powered by
[Griffe](https://mkdocstrings.github.io/griffe/); everything that decides what a change means
is written in Verus and proved against its contracts.

## Layout

- `src/` is the verified library:
  - `model.rs`: severities, summaries, package and report structure, the recommendation rule.
  - `cli.rs`: classification of parameter and snapshot changes, ignore rules, package
    selection, fail-on policies and the evaluation of one package.
  - `config.rs`: checking `apibump.toml` and making its paths relative to the repository.
  - `discover.rs`: package autodetection from `pyproject.toml` data, change detection by roots,
    and parsing of `git diff --name-only`.
  - `backend.rs`: the data the Griffe bridge returns and how the bridge is invoked.
  - `report.rs`: human, Markdown and GitHub annotation output.
  - `paths.rs`, `text.rs`, `sorting.rs`: Unix path components, text helpers and a stable sort,
    each with its specification.
- `app/` is the command-line program around the library: argument parsing, reading files,
  walking the repository, running git and the bridge, and writing JSON.
- `tests/` runs the library on concrete inputs.

Paths are modelled with Unix rules (`/` separates components, a leading `/` makes a path
absolute); Windows paths are not covered.

## Exit codes

- `0`: the check completed and did not violate the `--fail-on` policy.
- `1`: the check completed and violated it.
- `2`: usage, I/O, serialization or strict backend failure.
