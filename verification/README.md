# orbit_wars

The game rules, schedules, file formats and training bookkeeping of the Orbit Wars
agent and trainer, written in Verus and proved against their contracts.

- `src/` is the verified library. It works on integers and bytes: floating-point
  values cross it as their bit patterns. Each module states its model in spec
  functions; the public proof functions named `law_*` state properties that hold
  across calls (round trips of the binary formats, fairness of the schedules,
  combat outcomes, bookkeeping that commutes).
- `tests/` runs the library on concrete values.
- `app/` is ordinary Rust around the library: the floating-point simulation and
  geometry, file and clock access, and the text of error messages.
