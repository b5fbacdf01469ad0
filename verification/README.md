# pyrisk

Blast-radius analyzer for Python code bases. It compares a branch with a base branch, finds every
changed function and method, builds a call graph of the whole repository, and scores each change
by how many callers it affects and whether those callers have tests.

## Layout

- `src/` is the library. All of it is verified with Verus: each function states in its contract
  what it returns, and `src/laws.rs` states what holds of the library as a whole.
- `tests/` runs the library on concrete values.
- `app/` is the program: the command line, git, the files and the index on disk, and printing.

## Usage

```bash
pyrisk                               # compare with main or master
pyrisk develop                       # compare with another branch
pyrisk -r ~/projects/myapp main      # another repository
pyrisk -v                            # with a breakdown for each symbol
pyrisk --json
pyrisk --uncovered my_function       # list the uncovered callers of a symbol
pyrisk --exclude __tests__           # leave out files whose path holds this
```

## Scores

The **percentile** of a symbol is the fraction of all symbols of the repository that have at most
as many direct callers. The **uncovered ratio** is the fraction of its transitive callers whose
modules have no test file: `test_foo.py` and `foo_test.py` are those of the module of `foo.py` in
the same directory. `score = percentile * 60 + uncovered_ratio * 40`, computed in double precision.

| Label | Condition |
|-------|-----------|
| HIGH | Percentile >= p90 and uncovered ratio > 50% |
| MED | Percentile >= p75 or uncovered ratio > 50% |
| LOW | Below both thresholds |

## What is taken on trust

The syntax trees come from `tree-sitter` with its grammar of Python: `src/syntax.rs` names what
the parser returns and proves the rest from there. Of the standard library, `Path::strip_prefix`
(`src/paths.rs`), `String::push` and the comparison of two `str` (`src/text.rs`) have contracts
that are not proved.
