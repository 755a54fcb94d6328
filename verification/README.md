# mini_sgbd

A small relational database engine, verified with Verus: databases of
relations stored in pages, a buffer pool with LRU/MRU replacement, a
byte-level record format, and a command line (`CREATE DATABASE`,
`CREATE TABLE`, `INSERT INTO`, `BULKINSERT INTO`, `SELECT ... FROM ...
WHERE ...`, `DROP ...`, `LIST ...`, `QUIT`).

## Layout

- `src/` — the verified library.
  - `buffer.rs`: page-sized byte buffers over `bytebuffer::ByteBuffer`.
  - `relation.rs`, `schema.rs`, `format_laws.rs`: the record format and the
    law that reading a record gives back what was written.
  - `relation_pages.rs`, `page_laws.rs`: header pages and data pages, and the
    law that a data page reads back the records inserted into it, in order.
  - `buffer_manager.rs`: the buffer pool; it decides and hands back the disk
    reads and writes to perform.
  - `disk_manager.rs`: free pages, their saved form (bincode), where a new
    page goes.
  - `condition.rs`, `select.rs`, `operator.rs`: conditions, `SELECT`
    commands, scanning and projecting records.
  - `data_base.rs`, `db_manager.rs`: databases and their relations, and the
    saved catalog.
  - `catalog_file.rs`: the catalog file in JSON (through `serde_json`), and
    the law that loading what was saved gives back every database.
  - `sgbd.rs`: recognising commands and reading their arguments.
  - `config.rs`, `page.rs`, `col_info.rs`, `basic.rs`, `text.rs`.
- `tests/` — tests run against the compiled library.
- `app/` — the program: files, terminal, and the comparison of numbers in
  conditions, which compare as floating-point values.
