# backend_showdown_2026

Fraud scoring by a five-nearest-neighbour vote over a labelled reference set,
written in Verus.

* `src/` is the verified library:
  * `knn` keeps the five nearest candidates seen so far and states what a run
    of candidates leaves in the list;
  * `distance` holds the squared Euclidean distance and the 16-lane distances
    of an interleaved block;
  * `codec` holds the binary encodings of vectors, label words and blocks, with
    their decoders and round-trip laws;
  * `labels` packs and reads the fraud bits and counts fraudulent neighbours;
  * `reference`, `reference_simd` and `random_simd` are the three searches:
    over plain vectors, over interleaved blocks, and over a window of blocks
    chosen by hashing the query;
  * `features` holds the merchant-category risk table, the known-merchant test
    and the approval threshold.
* `app/` is the HTTP service (axum) and the preparation of the reference files
  from JSON; the floating-point feature scaling lives there.
* `tests/` exercises the library on concrete values.
