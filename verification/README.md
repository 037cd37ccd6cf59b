# smart_top

Diagnoses why a computer is slow and names the program responsible. The library
ranks the subsystems (CPU, memory, disk, network) by how stressed they are, ranks
the programs by their impact on whatever is stressed, and lays all of it out on a
terminal screen from which the guilty program can be acted on with one key.

The library is written in Verus. Every function states in its contract what it
returns on every input that its precondition admits, and the contracts are proved.
How the rows and columns of the screen are shared out is left to the layout crate:
the contracts fix what it is asked for, that its answer stays inside the screen, and
what is drawn into the areas it answers with.

## Layout

- `src/collect.rs`: two readings of the system, put together into metrics.
- `src/diagnose.rs`, `src/blameboard.rs`, `src/verdict.rs`: metrics to report.
- `src/actions.rs`: what can be done to a program, and what is told of it.
- `src/state.rs`, `src/watch.rs`: what is selected, shown and remembered, and how
  keys and new reports change it.
- `src/widgets.rs`, `src/panels.rs`, `src/display.rs`, `src/layout.rs`,
  `src/style.rs`: what the screen shows, and where.
- `src/rounding.rs`, `src/float.rs`, `src/decimal.rs`, `src/exact.rs`: IEEE 754
  numbers by their bit patterns, and how they are printed.
- `src/rank.rs`, `src/text.rs`: sorting and strings.
- `app/`: the program `stop` around the library: command line, system readings,
  signals, the terminal.
- `tests/`: the library at work on concrete values.

## What is taken on trust

`str::to_lowercase`, `str::to_uppercase` and `String::push` of the standard library,
and `Layout::split` of `ratatui`, which divides an area among the panels. What is
claimed of each stands above its declaration.
