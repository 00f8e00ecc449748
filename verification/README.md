# order_desk

The verified core of a small desktop tool for printing-shop work orders.

The library holds the tool's logic: it imports work orders from MySQL dumps
of the job table (`t_job`), numbers new orders and contracts and keeps their
counters in the JSON sequence store (through `serde_json`), names order
files, builds the order list, copies orders, and writes dates and times.
The shell around it reads and writes files, opens dialogs and serialises the
records. Each public function carries a contract that Verus
proves; the laws that tie functions together are proof functions.

Layout:

- `src/bytes.rs` – ASCII helpers: whitespace, case folding, search.
- `src/text.rs` – Unicode white space, trimming, decimal numbers, UTF-8 decoding.
- `src/sql.rs` – the dump scanner: quoted strings, statements, value tuples,
  `INSERT INTO` heads and `CREATE TABLE` column lists.
- `src/jobs.rs` – from dump rows to orders, with de-duplication.
- `src/order.rs` – the order records and order-number normalisation.
- `src/strmap.rs` – the text-keyed maps that hold an order's fields.
- `src/date.rs`, `src/numfmt.rs` – calendar dates and number formatting.
- `src/numbering.rs` – order and contract numbers.
- `src/store.rs` – the sequence store: counters read from its JSON text and
  the text written back.
- `src/desk.rs` – what the desk's commands decide.
- `app/lib.rs` – the Tauri shell: commands, files, dialogs and the serialised
  forms of the records.
- `tests/` – tests of the library.
