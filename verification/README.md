# canvas

The core of a shared pixel-canvas service, verified with Verus.

- `src/` is the library. Every function in it carries a contract that Verus
  proves: colours, canvas compression (a stable merge sort by row and column
  followed by run-length encoding), avatar documents, community and
  membership rules, pixel placement and its coin reward, coin purchases, and
  the checks of the sign-in callback. `uuid` is called through two trusted
  wrappers in `src/ids.rs`, and `i32` formatting through one in `src/text.rs`.
- `app/` is the web service around it: configuration, the PostgreSQL queries,
  the HTTP routes and the session middleware. It converts database rows and
  JSON payloads into the library's types and back.
- `tests/` runs the library on concrete values.
