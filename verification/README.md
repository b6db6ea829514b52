# tuplet

Tuple-based metric learning in Rust, with its index logic verified by Verus.

- `src/` is the verified library: negative miners (`InBatchMiner`,
  `HardestMiner`, `RandomMiner`), the first-in first-out `CrossBatchMemory`,
  the grouping of a labelled batch into positives, negatives, classes and
  positive pairs (`groups`), target-neighbour selection (`neighbors`), and the
  `DistanceFn` selector. Every function carries a contract, and the laws that
  relate them are public proof functions.
- `app/` holds the floating-point code that calls into the library: the loss
  functions with analytic gradients, similarity measures, metric-axiom checks,
  Mahalanobis distance learning (NCA, LMNN), the similarity-based miners, and
  the losses on candle tensors. Floats rank entries for the library through
  `app/keys.rs`, which maps each score to an order-preserving integer key.
- `tests/` exercises the library from outside.
