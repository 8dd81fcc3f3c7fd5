# anytls

AnyTLS is a proxy protocol. A client opens a TLS session to its server, proves that it knows the
password, and runs any number of streams over the session. The first records of a session are
padded by a scheme that the server can change.

The logic of both sides is a library that [Verus](https://github.com/verus-lang/verus) verifies:
every function states in its contract what it returns or changes, and the promises that span
functions are proof functions beside the code that keeps them.

## Layout

- `src/` is the library.
  - `frame`, `padding`, `writer`: frames, padding schemes, and how frames become records.
  - `session`, `stream`: what a session does with each frame, and what a stream's user sees.
  - `auth`, `server`, `client`: who is let in, where streams lead, which sessions are used again.
  - `socks_addr`, `uot`, `inbound`, `ip`: destinations, packets over streams, and the protocols that
    local programs speak.
  - `reality`: who is shown the server and who is shown another site.
  - `dialer`, `tcp_brutal`, `tls`, `config`, `cli`, `uri`: the rest of a working program.
  - `text`, `digits`, `order`, `wire`, `settings`: texts, numbers and bytes.
  - `buffer`, `crypto`, `encoding` hold the calls into other crates. Verus takes their contracts on
    trust, and so it does those of the few other functions marked `external_body`.
- `tests/` runs the library.
- `app/` is the program around it: sockets, TLS, files, arguments and logging.

The library decides and computes; it performs no input or output. A reader that gets too few bytes
says how many it needs. A session answers each frame with the actions to perform.
