# bf-gb

Brute-force feature selection with gradient boosting: every combination of
`k` out of `n` features is queued as a task, trained with stratified k-fold
cross-validation, and the scores are collected into a result table.

- `src/` is the verified library (Verus): combination enumeration and
  counting, batching of the task list, the Redis URL and queue names,
  stratified fold assignment with its partition and balance laws, class and
  confusion counts, and the bookkeeping and statement text of result
  collection.
- `app/` is the command-line program around it: argument parsing, Redis and
  DuckDB I/O, CSV loading, and the floating-point model and scoring.
- `tests/` exercise the library on concrete values.
