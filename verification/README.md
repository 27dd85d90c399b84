# httparena

HTTP benchmark servers whose request logic is a verified Verus library.

- `src/` — the library. Its logic is verified; the calls into `querystrong`,
  `dashmap` and `str::trim` sit behind small trusted wrappers whose
  contracts state what those functions do:
  - `bytes`, `numbers`: byte search, trimming, case-insensitive matching,
    line splitting, and the integer readers and writers (lenient, strict
    `str::parse`-style, hexadecimal, decimal rendering).
  - `h1`: the hand-rolled HTTP/1.1 core — request head, `Content-Length`
    and chunked bodies, `Connection: close`, pipelined buffers — with laws
    on fragmented reads (a prefix of a request is incomplete, the request
    cut at its end is complete, later bytes change nothing, and the model
    of a connection writes the same bytes however its input is split into
    reads), pipelining, `Connection: close` and chunked framing.
  - `response`, `handlers`, `crud`: what each endpoint answers
    (`/pipeline`, `/baseline11`, `/baseline2`, `/json/:count`, `/upload`,
    `/async-db`, `/crud/items`, `/ws`), as plain values.
  - `query`, `query_text`: query strings through the `querystrong` crate;
    list indices too large to be safe are written as `0` first, so that
    no list index can overflow while it parses.
  - `state`: the dataset items and the CRUD read cache (a `dashmap`), with
    its read-after-write laws.
  - `static_files`: the in-memory static file set with precompressed
    sidecars.
  - `config`: HTTP tuning and settings read from the environment.
- `app/` — the servers around it (`uring`, `trillium`, `tuned`, `proxy`):
  sockets, runtimes, the database, serialization.
- `tests/` — tests of the library on concrete values.
