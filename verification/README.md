# temporal_pattern

Temporal patterns (response, precedence, existence, absence) over
proposition traces, with scopes (global, after, before, between) and AND/OR
combination, verified with Verus.

- `src/` — the verified library. `trace.rs` holds the mathematical model of a
  trace and the scans over it; `scope.rs` the scopes and the regions they
  select; one module per pattern; `combination.rs` the combinations, conflict
  detection and coverage counts; `laws.rs` properties of the library as a
  whole, proved.
- `tests/` — the test suite.
- `app/` — serde forms of the types and the coverage fraction, which is
  floating point.
