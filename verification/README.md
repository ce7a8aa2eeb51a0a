# stream_core

The logic of a streaming engine, verified with Verus.

- `src/stream/top_n`: keeps the rows `[offset, offset + limit)` of a sorted stream with
  modifications. `cache` holds the rows around that window, `executor` turns chunks of changes into
  changes of the window. `laws` is about single rows, `chunk_laws` and `run_laws` about chunks:
  where rows with new keys are inserted and rows that are there are deleted, the window is that of
  all rows seen and not deleted. `insert_laws` is about the order of insertions.
- `src/source`: formats of sources, readers, and the parsers of change events of TiCDC (Canal) and
  Debezium.
- `src/storage`: splits key-value pairs into tables of limited size.
- `src/common`: values, rows, sort keys and types.
- `app`: waiting, reading and writing around the library: state tables, tables in a store,
  messages.

Where a step needs something from outside, such as rows of the state table or a finished table, the
library says what it needs, and goes on when it is told what came of it.
