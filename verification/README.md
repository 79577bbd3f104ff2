# pg_cocoon

Compressed time-series tables for PostgreSQL: the part of the extension that decides and computes,
written in Verus, with its contracts proved.

A table is partitioned by time. Old partitions are compressed into segments, one blob per column,
and read back by two scan nodes: one that returns rows, and one that aggregates without returning
them.

## Layout

- `src/` is the library. Every function in it has a contract that Verus checks.
  - `text`, `decimal`: strings and decimal numbers.
  - `compression::dictionary`: the encoding of text columns with few distinct values.
  - `catalog`, `partition`: partition windows and names, the statements that create partitions, and
    the steps of turning a table into a partitioned one.
  - `scan::path`, `scan::exec`, `scan::decompress`, `scan::nulls`, `scan::datum`,
    `scan::text_col`: row scans.
  - `scan::agg`: aggregation: the plan and its list form (`plan`, `layout`), what is read of a
    segment (`prepare`, `regex`, `assemble`, `segment`, `ready`), groups (`group`), accumulators
    (`accumulator`, `aggregate`, `finalize`), answers without decompression (`metadata`), what
    results are compared by (`measure`), result rows (`result`, `state`), times (`time`), and what
    holds of all of it (`laws`).
- `tests/` runs the library.
- `app/` is the PostgreSQL side: callbacks, queries and settings. It hands the library plain values
  and carries out what the library leaves to it, which is SQL, calls of PostgreSQL functions and
  floating-point arithmetic. What the rest of the extension provides is behind a trait in
  `app/support.rs`.

## Conventions

A public proof function whose name starts with `law_` states a property of the library as a whole.

What is taken from other crates and from the standard library without proof stands in `src/text.rs`
and `src/scan/agg/group.rs`, each item with a comment on what is claimed of it.

Floating-point sums and extrema are kept as bits. Each operation on them is put on a list, in the
order of the rows, and the executor carries it out. Results in floating point are compared by the
order of their bits; averages of integers are compared as exact quotients.
