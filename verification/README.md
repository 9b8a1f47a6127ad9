# mathset

A `.mathset` file is a set of math that draws an image: an ordered list of
anisotropic generalised Gaussians composited back to front over a
background. This crate is the verified core of the tool that fits, refines,
renders and animates such sets.

- `src/` — the library, verified with Verus: the file format's rules and
  accessors (`format`), working resolutions, targets resampled to them and prefix
  rendering (`render`, `resample`), the fitter's size and target, options, per-pass hash and winner collection (`fit`),
  tile binning for the refinement kernel (`tiles`), positional transitions
  (`transition`), timeline descriptors (`timeline`), change detection between
  frames (`motion`, `components`, `frames`) and byte counts for people
  (`text`). Every `f32` of a set is held there as its bit pattern.
- `tests/` — tests of the library on concrete values.
- `app/` — the command line: file and GPU I/O (wgpu), the floating-point
  parts (compositing, Adam, PSNR, translation search) and the serde copies
  of the library's types.
