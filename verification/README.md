# timeseries-db

Storage and querying of time-series data: points with a timestamp, a metric name,
a value and tags; an in-memory write buffer ordered by time; a write-ahead log;
immutable table files with a time-bucket index; Gorilla compression of the values.

## Layout

- `src/` is the verified library (Verus). Every public function states what it
  returns or changes in `requires` / `ensures` over mathematical models:
  - `point.rs`: points, tags as a map of strings, validation and serialized size;
  - `memtable.rs`: the write buffer, kept in time order (points with equal
    timestamps in insertion order), and the law that a range query after a write
    shows the written point exactly when the range covers it;
  - `compression.rs`: the Gorilla bit stream, with the law that decoding the
    compressed bytes gives the values back;
  - `wal.rs`: the log's record framing (CRC-32 checksum, length, data) and its reading,
    with the law that whole records read back as written and a cut-short last
    record is left out;
  - `sstable.rs`: the table file layout (header, one data block per minute bucket,
    index block, footer with the data size and a CRC-32 of the file) and its
    reading, with the law that the file of any memtable opens back as the table
    that laying it out gave (index, time range, points) whenever the layout can hold
    it: no more minute buckets than the index's 32-bit count holds, and in each
    bucket few enough points (at most 76 bits each) for the block's 32-bit byte
    length. Opening reads the index; a data block that cannot be read makes the
    table's queries fail;
  - `block.rs`: reading data blocks back (varints, strings, timestamps, values,
    tags), with the law that a block reads back as its points;
  - `query.rs`: queries, their validation, tag filters, time buckets, stable
    ordering by time and grouping;
  - `database.rs`: configuration, statistics, recovery of the write buffer from
    the log, ordering of tables and the points a query reads (of its metric, from
    the memtable and the tables), with the laws that recovery rebuilds exactly the
    memtable that the logged writes built, and that a flush keeps the points a query
    reads (and their order, unless a flushed point of the queried metric ties in time
    with an older table's);
  - `error.rs`: the error type and its messages.
- `app/` is the program around it: files, the clock, the command line, the
  bincode encoding of log payloads, and aggregation, which computes on doubles.
  Values travel through the library as the bit patterns of IEEE 754 doubles.
- `tests/` runs the library on concrete values.
