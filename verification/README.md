# parsec_engine

Slices what a coding agent has seen (the output of its commands, its own messages, its reasoning)
into chunks, with Python's string semantics, and proves that nothing with content is lost.

- `src/` is the library, verified by Verus.
  - `text`, `pystr`, `number`, `float`, `json`, `dumps`: strings, numbers and JSON.
  - `pattern`, `grep`, `command`: what a command and its output say of themselves.
  - `chunk`, `chunking`: chunks, and observations sliced into them.
  - `messages`: conversations, their steps, and the chunks of what was said and thought.
  - `laws`: what holds of the library as a whole. Full coverage is in `laws::coverage`; that JSON
    texts read back is in `laws::reading`.
- `tests/` runs the library on concrete values.
- `app/` is ordinary Rust around it: the environment, serialised chunks, values of `serde_json`, and
  floating-point numbers.

The only code that is believed rather than proved stands in `pattern` (matching with the `regex`
crate) and in `text` (appending a character to a string).
