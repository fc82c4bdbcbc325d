# afisp_rs

Subgroup discovery for the AFISP workflow: find the worst-performing subset of
samples, then describe it with short conjunctive rules over binary features.

- `src/` is the verified library:
  - `bitset`: `BitMask`, row flags packed in 64-bit words, with its view as a
    sequence of flags and the laws of conjunction, complement and counting;
  - `rules`: `Literal`, the canonical literal order and the rendering of a rule;
  - `prng`: the SplitMix64 generator used for every random draw;
  - `sirus`: input checks, rule masks, feature and row sampling for the rule forest;
  - `conjunction`: the depth-first conjunction search with support pruning.
- `app/` holds the floating-point statistics (losses, AUROC, bootstrap intervals,
  the worst-subset estimator, Gini splits, rule scoring) and the Python bindings.
