# tg

The core of a small TCP networking framework, written in Verus.

- `src/` is the verified library: the three message formats (`nw::pack`,
  `nw::pack_comp`, `nw::packet`) with their readers and writers, the
  streaming packet builder, the read decisions of a connection
  (`nw::session`), the server state (`nw::server`), socket addresses as
  bytes (`nw::tools`), request routing (`piper`), the error type (`g`) and
  clock and hexadecimal utilities (`utils`). Each public function states
  what it returns or changes; the laws of the formats (what is written
  reads back, a packet split over reads is rebuilt, a packet is processed
  at most once) are public proof functions.
- `tests/` exercises the library on concrete values.
- `app/` runs the library on tokio: TCP servers and clients, connection
  and packet pools, handler registration and logging.
