# Skaldberg

A small time-series database backed by Apache Iceberg. Samples are written over
Prometheus remote write or a JSON API, logged, buffered and flushed to two
Iceberg tables; they are read over SQL and over a subset of the Prometheus HTTP
API.

The library under `src/` is written in Verus. It holds what the database decides
and computes, each function with its contract:

- `ingest`: the remote-write format, validation and series ids, the write-ahead
  log's frames, files and replay, the buffer, and the rows of a flush.
- `prometheus`: query plans, their SQL, and what is made of the rows that come
  back: selectors, window functions, aggregations, rankings, operators,
  histogram quantiles, and the answers' JSON.
- `grafana`, `handlers`, `convert`: the other endpoints.
- `args`, `auth`, `aws_s3_storage`, `iceberg_table`, `state`: the command line,
  the bearer token, S3 addresses, the table schemas, and what is set up on start.

Doubles are carried as bit patterns. Comparing them is part of the library; for
arithmetic, reading and writing numbers it takes functions from its caller.
What is assumed of other crates stands in the trusted declarations beside their
uses.

The program under `app/` does the rest: files, sockets, Arrow columns, Iceberg
commits and floating point. `tests/` runs the library from outside.
