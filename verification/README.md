# bindermap

Reverse-traces AIDL/binder interface methods to the public SDK methods that
reach them, over a class graph decoded from `dexdump -d` output.

- `src/` is the verified library (Verus): the `dexdump` decoder (`dex`), the
  public-API oracle (`api`), the class table and hierarchy (`table`,
  `ancestry`), the reverse call graph and index (`reverse`, `graph`), the
  reverse breadth-first trace (`trace`), the report (`report`), input
  selection and jar/apk extraction (`input`, `archive`), and string helpers
  (`text`).
- `app/main.rs` is the command line: it walks the inputs, runs `dexdump`,
  reads the oracle, traces in parallel and writes the CSV / JSON / log files.
- `tests/` exercises the library on concrete values.
