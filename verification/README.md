# Tiered JIT engine, verified

A model of a tiered just-in-time execution engine: functions are profiled,
compiled to specialized optimized variants with memoized results, dropped to a
baseline form when too polymorphic, compiled for heavy loops, quarantined
after repeated errors, invalidated when a function they inline is
deoptimized, and evicted from a bounded cache by a clock (second-chance)
policy.

## Layout

- `src/` — the verified library.
  - `text.rs`: decimal rendering, substring search, string order.
  - `value.rs`: dynamic values, type signatures, depth-limited serialization.
  - `collections.rs`: string-keyed maps and sets kept in ascending order.
  - `cache.rs`: compiled-code records.
  - `model.rs`: the engine's state as mathematics and each transition as a
    spec function.
  - `engine.rs`: the engine's tables and operations, each proved against its
    transition; garbage collection and memory accounting.
  - `invoke.rs`: one invocation as a sequence of steps (`begin`,
    `after_body`), the decisions of every tier.
  - `laws.rs`: properties spanning several operations.
- `tests/` — scenario tests driving the library's steps.
- `app/` — the engine as users drive it: function bodies behind a trait,
  values with `f64` numbers, a shared engine behind a lock, wall-clock budgets
  and the floating-point memory limit. It runs the bodies and reads the
  clock; every decision is the library's.
