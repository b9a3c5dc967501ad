# navi

navi is a small Lisp in which programs live in objects. Each object has its
own heap of values and its own global variables; objects talk to each other
by sending messages, which the receiving object matches against the patterns
it declared with `def-recv`.

The library is written in Verus: its functions carry `requires`/`ensures`
contracts over a mathematical model of the values (`value::any::Val`), and
Verus proves them.

## Layout

- `src/read.rs`: the reader, from text to values. Its contract is a grammar
  written as spec functions (`parse_datum`, `parse_seq`).
- `src/compile.rs`, `src/value/syntax/matcher.rs`: the compiler from values to
  intermediate forms (`value::iform::IForm`), including `match` patterns.
- `src/eval.rs`: the evaluator of intermediate forms, builtins that need the
  evaluator (`apply`, `force`, `spawn`, `send`), and `eval`/`exec`.
- `src/object.rs` and `src/object/`: objects, their heap and garbage collector
  (`mm.rs`), capture slots (`fixed_size_alloc.rs`) and local variables
  (`context.rs`).
- `src/world.rs`, `src/world/map.rs`: global variables, kept in a Patricia
  tree.
- `src/value.rs` and `src/value/`: the kinds of values and their builtins.
- `tests/`: tests that run the library.
- `app/main.rs`: an interactive prompt around the library.
