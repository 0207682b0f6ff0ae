# logiclab

A digital-logic sandbox: draw circuits on an integer grid, wrap parts of them
into custom components, simulate them tick by tick, check them against design
rules and keep an undo history. The library is written in Verus; every
function carries a `requires`/`ensures` contract that Verus proves.

## Layout

- `src/values.rs`: signal widths, per-bit unknown flags, wrapping arithmetic,
  value formatting.
- `src/defs.rs`: component kinds, parameters, pin layouts and evaluation.
- `src/board.rs`: the drawing (instances, wires, notes, labels), editing,
  picking and auto-routing.
- `src/netlist.rs`: which pins and wires join into which net.
- `src/elaborate.rs`: flattening a hierarchy of drawings into one netlist.
- `src/engine.rs`: the tick engine (evaluate on old values, commit at once).
- `src/graph.rs`: reachability over adjacency lists.
- `src/drc.rs`: design rule checks (drivers, widths, loops, self reference).
- `src/view.rs`: per-net display state for a front end.
- `src/session.rs`: the editing session (edits, undo/redo, hierarchy
  navigation, extraction into sub-circuits, simulation and waveforms).
- `src/save.rs`, `src/examples.rs`, `src/text.rs`: project data, built-in
  examples and string helpers.
- `tests/`: tests of the library.
- `app/`: the command-line program and the JSON format (serde), which sit
  outside the verified library.
