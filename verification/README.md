# tcp2http

A small HTTP/1.1 server whose protocol logic is verified with Verus.

- `src/` is the verified library:
  - `parse/`: a byte cursor (`iter`), byte classes (`tchar`), the request and response head
    parsers with their scanning helpers (`parse_utils`, `parser`), request-target splitting and
    query strings (`uri`), the proof that a block of header lines is read to its end
    (`header_block`), laws on whole request heads: when reading one stops the program, what a
    truncated head reads as, and the method shortcuts (`head_laws`), and the proof that a built response reads back (`round_trip`);
  - `router/`: a radix tree of routes (`radix_tree`), the per-request context (`context`) and
    the dispatcher (`engine`);
  - `connection`: the decisions of a connection, as a state machine over I/O outcomes;
  - `shutdown`: the shutdown flag of a task.
- `app/` is the program around it: the tokio listener, the socket set-up, the I/O that drives
  each connection's state machine, and the route handlers.
- `tests/` runs the library on concrete inputs.
