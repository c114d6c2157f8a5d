# mini_rudis

A small Redis-like key-value server speaking RESP, with its logic verified by Verus.

- `src/` is the verified library: frames and their values (`frame`), the RESP
  encoder and decoder (`resp`) with the proof that decoding reads back what
  encoding wrote (`roundtrip`), the keyspace (`store`, over the pair lists of
  `table`), command dispatch (`handler`), the append-only log and its replay
  (`aof`), the reply to a request (`server`), and the std text conversions and
  number parsing they use (`text`).
- `app/` is the Tokio program around it: the TCP listener, connections, the
  log file and the timer that flushes the log.
- `tests/` exercises the library on concrete values.
