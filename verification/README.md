# rustdiff

A semantic diff of JSON and XML documents, with its rules proved in Verus.

* `src/` is the verified library: format detection, the JSON and XML
  document models and readers, the semantic diff engines and their reports
  (text, HTML), the graph view model, what the editors highlight, the
  history's stored values and the decisions the window takes. Calls into
  serde_json, quick-xml, similar and `str::to_lowercase` sit behind small
  trusted wrappers whose contracts say what the library relies on.
* `app/` is the GTK desktop application around it: windows and widgets,
  the SQLite history (rusqlite), the settings file, translations and the
  floating-point graph layout.
* `tests/` exercises the library with the real outside crates linked.

Some properties the proofs establish:

* two JSON documents have no difference exactly when serde_json counts them
  as equal, and an XML tree compared with itself has none;
* comparing two JSON documents the other way round swaps additions and
  removals and the two sides of every change;
* every difference lands in the list its kind names, under a path that
  starts at the document root;
* `all_items` lists every difference once, ordered by path;
* an XML document is read into the tree that quick-xml's events describe,
  with no blank text anywhere in it;
* graphs are built breadth first with node ids equal to their index, every
  edge pointing from a node to a later one one column further right, from a
  row its parent has, with no node having two parents, within the node
  budget;
* escaped HTML text contains no `<`, `>` or `"`.
