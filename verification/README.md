# pirx

An execution profiler for fault-tolerant quantum computing: a discrete-event
simulator that takes a compiled circuit and a hardware model and produces a
cycle-by-cycle trace of magic-state factories, the buffer between them and
the T-gates, and gate scheduling; then a time-bucketed profile of that trace
and a sensitivity analysis over the hardware parameters.

## Layout

- `src/` is the library, verified with Verus. Every function states its
  behaviour in `requires` / `ensures` over spec functions and views.
  - `circuit`, `validate`: the circuit representation and its validation.
  - `builder`, `qasm`, `tket`, `tket_json`: building a circuit gate by gate
    from OpenQASM statements, or from a tket1 JSON circuit: its text is
    parsed with `serde_json` behind a trusted wrapper, operation types are
    classified by name and arguments resolved to qubits in verified code.
  - `dag`, `ready_queue`, `events`, `buffer`, `routing`, `trace`,
    `factory`: the engine's data structures. The operation graph is a `Vec`
    arena indexed by `OpKey(usize)` with `Vec` adjacency lists: a `slotmap`
    key type is made by that crate's `new_key_type!` macro, and `smallvec`'s
    vector is bounded by its `Array` trait, and verified code can use
    neither an outside crate's macro nor an outside trait as a bound.
  - `engine`: the simulation. Each step is stated as a relation between the
    state before and after; the stochastic decisions (factory outcomes,
    injection errors, measurement outcomes) come from an `EngineOracle`
    that the caller supplies.
  - `accounting`: laws on how the engine counts the operations it waits for.
  - `names`: small tables of names.
  - `analysis`, `summary`: the integer profile and per-run totals of a trace.
  - `sobol`, `sensitivity`, `hardware`: the integer core of the Sobol
    sequence and Saltelli matrices, and the checks of sensitivity
    configurations.
- `app/` is the command-line program around the library: file and TOML/JSON
  I/O, the random factory models and everything in floating point (the
  profile's ratios, Monte Carlo statistics, Morris and Sobol estimates).
- `tests/` exercises the library through its public interface.
