# soil

Substrate for particle simulations: atoms and their extension data, domain
decomposition and ghost communication, neighbour lists, groups and regions,
velocity Verlet integration, box deformation, reports and files, and the order
of work on a device.

- `src/` is the library. Every function has a contract that Verus proves, except
  the few wrappers around outside calls in `device.rs`, `stages.rs` and
  `thermo.rs`, whose contracts are believed.
  Numbers are IEEE binary64 bit patterns; how they compare, round and convert is
  decided in `scalar.rs`, and the machine's arithmetic is a parameter of the
  functions that need it.
- `tests/` runs the library on concrete values, with the machine's own
  arithmetic.
- `app/` is the ordinary Rust around it: plugins for the scheduler, messages
  between processes, files, and device code.
