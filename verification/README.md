# arraystring

A UTF-8 string of fixed capacity, stored inline: `ArrayString<SIZE>` holds at most `SIZE`
bytes (a `typenum` number up to 255); every constructor's contract gives the string the capacity
`capacity_of::<SIZE>()`, the number `SIZE` stands for. Every operation is verified with Verus against a
contract over the string's bytes (`s@`) and its `char`s (`s.chars()`), and every string the
library hands out is well formed (`wf`): valid UTF-8 that fits in its capacity.

- `src/array.rs`: `ArrayString` and `Drain`, their operations and contracts.
- `src/utf.rs`: UTF-8 and UTF-16 facts and helpers (encoding and decoding one `char`,
  `char` boundaries, cutting at a boundary).
- `src/laws.rs`: properties that relate several operations (a pop undoes a push, a remove
  undoes an insert, trimming twice is trimming once, ...).
- `src/capacity.rs`: the number a `typenum` type stands for, which fixes the capacity.
- `src/error.rs`: the error types.
- `app/`: the std, serde and diesel traits, on wrappers that delegate to the library.
- `tests/`: the documented examples and further cases.
