# queson

A JSON decoder whose behaviour is specified and proved with Verus, and the
Python module (`loads`, `loadb`) built on it.

* `src/` is the verified library.  `grammar.rs` is the specification: the
  accepted language, the decoded value, and the error and input location of
  every refused document.  `parser.rs` is an event-based parser that keeps
  open containers on a heap stack; `de.rs` builds a `JsonValue` from its
  events.  Both are proved to follow the specification, as are the token
  readers in `cursor.rs`, `strings.rs`, `number.rs` and `trampoline.rs`.
  `laws.rs`, `shift.rs`, `whitespace.rs`, `closing.rs`, `numeral.rs` and
  `standard.rs` prove properties of the specification: what the depth limit
  refuses and that a limit a document passes changes nothing, where error
  locations lie, that whitespace around a document does not change its value,
  that each object is reported closed once and in closing order, that a
  number is the longest run of bytes that can begin one, and that strings
  are read as JSON's string syntax says, with over-long UTF-8 after a
  backslash and `\u+` escapes the only extra inputs accepted.
* `app/` is the Python extension module.  It drives the parser and builds
  Python objects from its events, calling the object hook on each finished
  dict.
* `tests/` runs the library on concrete documents.

Only decoding is provided.  An encoder (`dumps`, `dumpb`, `Fragment`) is not
part of this crate: no definition of its behaviour was available to state a
contract against, so it is left out rather than written without one.
