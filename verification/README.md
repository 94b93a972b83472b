# automl_core

A library for automated machine learning: search spaces, samplers, pruners, studies with budgets
and storage, multi-fidelity scheduling, multi-objective search, architecture and pipeline search.
The library is written in Verus: every function states what it does, and the statements are proved.

## Layout

- `src/`: the verified library.
  - `space`, `distribution`, `param`: what can be searched, and what a point of it is.
  - `sampler`, `qmc`, `tpe`, `evolution`, `nsga2`, `warmstart`: how the next point is proposed;
    `axis` and `parzen` hold what they share, `named` what samplers and pruners are called.
  - `pruner`, `multifidelity`, `checkpoint`: when a trial stops, and which one goes on.
  - `study`, `storage`, `memory`, `rows`, `distributed`, `process`, `executor`: running trials and
    keeping their records.
  - `run`: what a run of a study is, step by step, in contracts; `replay`, `steady`, `modeling`,
    `breeding`: why running a study again gives the same trials, whatever the sampler.
  - `pareto`, `hypervolume`, `importance`, `metrics`, `order`: judging what came out.
  - `nas`, `fusion`, `pipeline`, `tasks`: what is built on top.
- `app/`: what stands around the library: floating-point arithmetic, database files and servers,
  stores shared between threads, batches on threads and workers as processes, the environment,
  serialization.
- `tests/`: the library in use.

## Numbers

A metric or a float parameter is a `Scalar`: the bits of a double, with the order that the bits
define. The library decides everything that rests on this order. Arithmetic on floats is asked of a
few traits (`reals::Reals` and its kin), of which nothing is assumed; answers that must lie in a
range are settled into it, and contracts name each answer by the question that it was given to.
Laws that need more of the answers say so in their preconditions: that arithmetic is steady, and
answers the same question alike, or that it is orderly. `app/arith.rs` implements the traits with
`f64`.

## Laws

Statements that relate several functions are proof functions whose names begin with `law_`, next to
the functions they speak of.
