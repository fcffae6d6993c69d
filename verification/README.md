# bbsg_a08

Core of the stage-two assessment of distribution transformers.

- `src/`: ordering of identifiers (`order`), lookup in association lists
  (`assoc`), the shape of feeder names in load-profile keys (`pattern`) and
  the feeder index built from them (`feeder`), per-transformer rules
  (`transformer`: zone class, owner, meter phases, office, labels), the
  records a run produces and their order (`plan`), grouping of records by
  substation (`group`) and partition of work among threads (`chunk`). Every
  function there carries a contract that is proved.
- `app/`: bincode files, threads and the `f32`/`f64` arithmetic (energies,
  densities, growth, savings schedules, internal rate of return through the
  `financial` crate).
- `tests/`: tests of the library.
