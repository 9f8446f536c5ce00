# mellonella

A live microphone filter that lets one enrolled voice through: the library
verified with Verus, and the application around it.

- `src/` holds the library. Samples, embeddings and scores are `Binary32` and
  `Binary64`: IEEE 754 numbers whose rounding is stated and proved here, so
  every contract about audio is exact.
- `app/` holds what talks to devices, models, files and the window. It hands
  the library plain values, and closures for what only a model, a sample-rate
  converter or a queue can answer.
- `tests/` runs the library, sample-rate conversion included.

The library trusts a handful of items of the standard library and `dirs`; each
says so in its doc comment (`text.rs`, `paths.rs`). Properties that span
several functions are proof functions whose names begin with `law_`.
