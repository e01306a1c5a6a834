# pcg-mutation

Mutation testing of the place capability graph (PCG). The tool runs inside the Rust
compiler. It takes the MIR of each function of a crate and the PCG's analysis of it, puts
in uses of places that the analysis rules out, and counts how many of these mutants the
borrow checker accepts.

## Layout

- `src/` is the verified library. `mir` and `pcg` hold the part of the MIR and of the
  analysis that the mutations read and build; `graph` is about paths in a borrows graph;
  `mutator` holds the mutations and the walk over a function; `body_test` runs all
  mutations on one function; `results` keeps the counts and the log; `driver` and
  `visualization` make the decisions of a run; `text` writes numbers and compares strings.
- `tests/` are the library's tests.
- `app/` is the program around it: the compiler's callbacks, the conversion between the
  compiler's data structures and the library's, the borrow checker, the environment and
  the files.

The program needs a nightly compiler with its private crates, the `pcg` crate of the PCG
project, and `borrowck`, a copy of the compiler's borrow checker that can be called on a
mutant.

## Environment

| Variable | Meaning |
| --- | --- |
| `DO_BORROWCK` | run the borrow checker on the mutants (on by default) |
| `MUTANTS_LOG` | write a log of the mutants |
| `PCG_POLONIUS` | use the Polonius borrow checker |
| `PCG_VISUALIZATION` | keep the mutants that pass, in order to visualize them |
| `PCG_VISUALIZATION_DATA_DIR` | where to write the visualizations |
| `PCG_SKIP_FUNCTION` | a function not to test |
| `RESULTS_DIR` | where to write the results (the current directory by default) |
