# ecma_runtime_cat

The decisions of an ECMAScript runtime's built-ins for the `boa-cat`
engine (`JSON.parse` / `JSON.stringify`, `parseInt`, the coercions, the
`Promise`, `Object`, `Array` and `Error` statics, `console` lines),
verified with Verus over a plain model of the engine's values.

- `src/` is the verified library.  A native call is a function from the
  call's arguments (and a snapshot of the heap objects and promises it
  reads) to a `Completion`: the value it throws, or a `Plan` of heap
  allocations and stores followed by the value it returns.
  `src/json_laws.rs`, and the `law_*` proof functions of the other
  modules, state what holds across calls (among them: `JSON.parse` reads
  back what `JSON.stringify` writes).
- `app/` is the engine glue: it turns engine values into the library's
  values and back, runs plans on the engine's heap, does the
  floating-point work (`Math.*`, reading numerals as doubles), prints, and
  installs the natives into an environment (`install`, `build_initial`).
- `tests/` exercise the library on the scenarios of the runtime's own
  test-suite and on edge cases.
