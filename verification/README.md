# btree_database

A tree database of text values: each key holds either a value or a nested tree of keys.
Stores and removals can be recorded as log lines, and replaying those lines rebuilds the
tree. A few interactive text tools come with it.

- `src/` is the verified library:
  - `data.rs`: stored values (`Data`), their model (`Node`), and the sorted-entry lemmas;
  - `database.rs`: `Database`, `Command`, `SetParameters`, log lines and their parsing;
  - `laws.rs`: properties that span operations (log replay, lookup after store, removal
    after store);
  - `text.rs`: key order, splitting and joining, line ends;
  - `tools.rs`: the text tools' computations (trim, character removal and case change,
    splitting by a pattern, menu and answer reading, number parsing).
- `app/` holds the programs: the log-file backed shared database, the TCP test client,
  the interactive text tool, and a timing loop.
- `tests/` runs the library on concrete values.
