# maitria_kernels

Exact-arithmetic kernels and a wire format for computation graphs, with every function of the
library proved against its contract by Verus.

| Module | What it holds |
| --- | --- |
| `nullspace` | Kernels of integer matrices: modulo a prime (dense reference and sparse elimination), lifted to exact vectors, checked over the integers, completed by a pinch argument |
| `rnsfold` | Folds of signed multiword integers, decided by residues modulo a fixed table of primes |
| `roweq` | Row membership of sparse rational rows, whose values are compared by sign, magnitude and denominator id |
| `sweep` | First sign violation and extrema of a plane of integers |
| `hypernet` | Graphs of typed tensor boxes: scalars, complexes, builder, well-formedness, canonical bytes, digest |
| `cuda` | What the device lanes decide: launches, uploads in stages, tables, verdicts |
| `nt`, `linalg`, `rowspace`, `mont`, `limbs`, `planes` | The mathematics underneath |
| `text` | Text built character by character |

`src/` is the verified library. `app/` is ordinary Rust around it: the CUDA device, `serde`,
errors with their texts, the detection of the processor. `tests/` runs the library.

## How to read the contracts

Contracts speak of mathematical values: matrices and vectors over `int` (`linalg`), multiword
integers by their value (`limbs`), graphs and scalars by their views (`hypernet`). Public proof
functions whose names begin with `law_` state what holds across functions: that two lanes give
the same answer, that decoding undoes encoding, that a pinched basis is complete.

Work on several threads (`rayon`), big integers (`num-bigint`, `num-integer`) and SHA-256
(`sha2`) are called, not verified. Each such call stands behind a small function whose contract
says what is taken for granted.
