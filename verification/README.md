# A2A Signal Chain

A communication layer that routes messages between rooms, verified with Verus.

- `src/` is the library. `chain` holds the signal chain, `model` says what it is and what each
  operation makes of it, `signal`, `route`, `port`, `deadband`, `path` and `storm` hold its parts,
  `a2a`, `json`, `hex` and `text` the messages, `double` the numbers. `laws`, `history` and
  `roundtrip` state what holds of the whole.
- `tests/` runs the library.
- `app/` adds what needs floating point: the cosine distance of two embeddings, and their decimal
  text.
