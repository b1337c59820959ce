# overview

Verified core of a PLOT3D viewer backend, written in Verus.

- `src/` is the library: binary (Fortran record) and ASCII PLOT3D grid,
  solution and function readers, wireframe mesh topology with IBLANK
  blanking, field and color-scheme names, surface sampling and color
  filtering for solution coloring, index-slice and cell index arithmetic, a
  bounded log with its export text, and cache identifiers and records.
  Floating-point values are carried as their raw IEEE-754 bit patterns.
  Every function is verified except three small trusted wrappers whose
  contracts are taken on trust: `Path::file_name` (`ids.rs`),
  `Path::extension` (`formats.rs`), and the system clock read that stamps
  cache identifiers (`ids.rs`). Log timestamps are read by the caller.
- `app/` holds what stays outside: file access, the clock for log
  timestamps, process-wide state, `tracing` output, serde copies of the data
  types, and the floating-point computations (derived fields, color maps,
  statistics, normals).
- `tests/` exercises the library on concrete inputs.
