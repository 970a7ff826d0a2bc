# fraud_index

Scores card transactions by their five nearest neighbours among labelled
references. A transaction becomes a vector of sixteen quantized features; the
references are kept in an index file of cells and of trees of bounding boxes,
which a request is searched in.

- `src/` is the library, verified with Verus: the features of a request, the
  format of the index and how it is built, the two search engines, the
  collection of neighbours, and the statistics of requests and of validation
  runs. Where the laws of the library relate several functions, they stand as
  public proof functions whose names begin with `law_`.
- `tests/` runs the library on concrete values.
- `app/` holds the programs around it: the HTTP server, a benchmark, the index
  builder, the exhaustive oracle and the validation client. They read and write
  files, talk to the network and compute with floating-point numbers.
