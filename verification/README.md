# data_parsing

An L3 order book for one instrument, built from incremental market-data
ticks, with its logic verified by Verus.

- `src/` — the verified library: quotes and sides (`quote`, `level`, `side`),
  ticks (`tick`), the book and its update rules (`book`), splitting text into
  lines (`lines`), the book keyed by price text built from JSON lines
  (`text_book`, the one place the library calls serde_json), and the laws
  the book obeys (`laws`).
- `app/` — the program around it: JSON parsing of ticks (serde), placing
  float prices on the integer price grid, reading files, and printing.
- `tests/` — tests of the library on concrete values.
