# tcp_ais_broker

A TCP broker that reads one upstream AIS/NMEA feed, splits it into lines and
distributes the lines over the connected downstream consumers.

- `src/` is the verified library (Verus): line framing (`framing`), AIS
  multipart headers and affinity keys (`multipart`), the bounded FIFO queue
  (`queue`), consumer selection and the affinity table (`dispatcher`), the
  upstream reader's decisions (`upstream`), the health/metrics HTTP
  responses (`http`), decimal text (`decimal`) and the `bytes` buffers as
  the library sees them (`buffers`). Laws about several operations are
  proof functions named `lemma_*` next to the operations they relate.
- `app/` is the executable: command-line parsing, the Tokio tasks, sockets,
  logging and metrics, calling into the library for every decision.
- `tests/` exercises the library on concrete values.
