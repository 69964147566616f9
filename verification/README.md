# microduck

The decision logic of a small walking robot, verified with Verus.

- `src/` is the library. It covers the control protocol and its routing, the safety
  gate between the walking policy and the motors, gamepad pairing, the Bluetooth
  service, session logs, path planning, and the mapping and localisation stack.
- `tests/` runs the library. `tests/world.rs` drives whole mapping sessions through it
  in a simulated room.
- `app/` is what surrounds it: buses, files, clocks, the inference runtime, JSON, and
  the floating-point arithmetic of mapping.

Numbers that come from floating-point arithmetic enter the library as bit patterns
(`ieee::Single`, `ieee::Double`). The library compares, orders and carries them; it
does not add or multiply them. Where a decision depends on a sum or a distance, the
function that decides takes it as an argument.

Facts that relate several functions are public proof functions whose names begin with
`law_`.
