# quiz_server

The logic of a quiz server, with proved contracts: question files and the
answers that groups send are read by parsers with exact contracts, a round
is scored by a verified ranking of estimates, and the screens' event
buffers are bounded first-in first-out queues (crossbeam's `ArrayQueue`).

- `src/` — the verified library:
  - `text.rs`: splitting at a separator, lines of a text, blank lines,
    decimal numbers;
  - `question.rs`: questions and the `#`-separated line format;
  - `answer.rs`: answers, and the answer data that groups send;
  - `groups.rs`: the groups by name, in the order they joined;
  - `event_buffer.rs`: bounded event buffers;
  - `ranking.rs`: sorting estimates by their distance;
  - `server_data.rs`: the quiz state and the scoring of a round;
  - `laws.rs`: properties of scoring, buffers and parsing, proved;
  - `cors.rs`: the cross-origin headers of every response.
- `app/` — the web server (rocket routes, templates, event streams,
  locking). Floats are read and compared here: the library holds a 64-bit
  float as its bit pattern, and ranks estimates by the bit patterns of
  their distances, which order non-negative floats as the floats do.
- `tests/` — tests of the library.
