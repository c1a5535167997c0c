# label_filter

Label filters for nearest-neighbour search over an in-memory graph index, verified with
Verus.

- `src/` is the verified library.
  - `store`, `store_model`, `provider`, `attribute`, `evaluator`, `filter_expr`, `sorting`:
    the attribute store, which keeps the labels of each point and the points of each label.
  - `ast`, `values`, `fractions`, `labels`, `field_index`, `value_table`: filter expressions
    over the values of fields, and filter bitmaps from JSON label lines, by an inverted
    index. Numbers that are not whole are double-precision bit patterns.
  - `inline_labels`, `routing`: filters over label ids, and routing of filtered queries by
    the posting lists of their labels.
  - `search`, `knn`, `distance`, `recall`: how queries are routed and recorded, brute-force
    search, and recall with credit for ties. Distances are single-precision bit patterns.
  - `formats`: the graph header, ground truth and result files.
  - `index_build`: the decisions of an index build.
  - `treemap`, `bits`: what is trusted of the `roaring` and `bit-set` crates.
  - The modules whose names end in `_laws` state what holds of the library as a whole.
- `tests/` runs the library on concrete values.
- `app/` holds the command line tools. `app/engine.rs` binds them to the graph index crates
  of the host workspace, which supplies these crates.
