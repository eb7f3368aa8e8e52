# wordrember

A vocabulary trainer's word store, verified with Verus.

- `src/` — the verified library
  - `store.rs`: the words table, the learned table and their id sequences, with
    adding, importing, marking remembered/forgotten, deleting, resetting,
    listing, configuring the memory threshold and rebuilding from stored rows;
    the model (`StoreState`) and the rules every store keeps.
  - `import.rs`: the CSV, tab-separated and JSON import formats.
  - `text.rs`: character-level helpers (trimming, fields, lines, code-point
    order, decimal numerals).
  - `arrange.rs`: ordering by text and the seeded shuffle.
  - `clock.rs`: the timestamp stored with learned records.
  - `settings.rs`: reading the integer and on/off settings from their stored text.
  - `word.rs`: the records and errors.
  - `laws.rs`: properties spanning several operations.
- `app/` — the Tauri application: the SQLite file, the settings, the window
  and the commands, which read the store from the database, call the library
  and write the store back.
- `tests/` — tests of the library on concrete values.
