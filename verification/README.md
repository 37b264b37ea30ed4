# embsim_board

Net resolution for simulated electronic boards, verified with Verus.

A board is nets, the resistances, capacitors and piecewise-linear elements
between them, and the pins that drive them. The library decides what every net
carries, keeps that up to date as pins are driven, and tells whoever senses a
net what moved.

- `src/` is the library. Two of its items are trusted, both in `text`: what
  `String::push` does to a string's characters, and that `debug_form` gives
  `{:?}` of a string, whose characters it names and does not spell out.
  Everything else is verified.
  - `quantity`, `net`: the units and the states. Voltages are whole picovolts,
    currents whole picoamperes, resistances whole micro-ohms; an infinity and
    what is not a number are cases of their own.
  - `dsu`, `paths`, `coupling`, `topology`, `reach`: what conducts to what.
    `topology::laws` holds why a cluster can be resolved by itself, and
    `coupling::laws` that a rate takes the way of least resistance.
  - `ranking`, `phases`, `terminal`, `scene`, `pass`, `emission`, `resolver`:
    what a net's sources make of it, and the passes over all nets or over those
    a change touched. `resolver::laws` holds what every change keeps, and
    `resolver::replay` what a run of changes comes to.
  - `wheel`, `sequencer`, `senses`, `volts`, `link`, `iteration`, `engine`: the
    engine as a state machine. `engine::laws` holds what it promises.
  - `event_log`, `diagnostics`, `text`: the transcript and the findings.
  - `sexp`, `netlist`: the netlist reader. `netlist::laws` holds which forms it
    does not read.
  - `mcu`, `host_pty`: a controller's channels and a host's serial port.
- `tests/` runs the library on concrete boards, netlists and schedules.
- `app/` is the host side: the engine's thread, the controller's pumps and the
  host's terminals, and floating point at the edge.

A cluster of nets that must be solved goes to a `ClusterSolver` of the caller's.
