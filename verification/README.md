# rustowl

RustOwl shows the ownership and lifetimes of Rust variables in an editor:
the live range of a variable, its borrows, moves and calls, and the places
where lifetimes conflict, as underlines.

## Layout

- `src/` is the library, written in Verus. Every function in it is proved
  against its `requires` / `ensures` contract:
  - `models`, `maps`: the analysis results (workspaces, crates, files,
    functions, MIR blocks and declarations, source ranges) and how results
    are merged.
  - `utils`: operations on source ranges (common parts, unions, exclusion,
    merging) and line/character conversion.
  - `liveness`, `dataflow`, `analyze`, `transform`, `mir`: the liveness,
    borrow and must-live ranges computed from the borrow checker's facts,
    and the walk over the control flow that tracks each local's state.
  - `decoration`, `backend`, `visualize`: choosing the variable under the
    cursor, building its decorations, the overlap pass, and the terminal
    rendering.
  - `analysis`, `cache`, `cli`, `rustowlc`, `toolchain`: the decisions of
    the `cargo check` run, the cache settings, the command line, the
    compiler wrapper's arguments, and the toolchain download and install.
  - `xtask`, `perf_dummy`: the developer tasks' decisions and the
    performance test package.
  Laws that relate several functions stand as public proof functions whose
  names begin with `law_`.
- `tests/` runs the library on concrete inputs.
- `app/` is the program: argument handling, the language server over
  standard input and output, running `cargo`, reading and writing files,
  and downloading the toolchain. It calls the library for every decision,
  and is not itself verified.

What is not proved: the compiler plugin's reading of the compiler's own
data structures, which needs the compiler's internal crates; the outside
crates called through the trusted items of `src/maps.rs`,
`src/toolchain.rs` and `src/text.rs`, whose contracts are taken as given;
and everything under `app/`.
