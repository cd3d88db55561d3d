# pebble

A Pebble template engine whose front end is verified with Verus.

- `src/` is the verified library: the template lexer (`lexer`), the
  expression tokenizer and parser (`expr_tokens`, `expr_grammar`,
  `expr_parser`), the statement parser (`stmt_grammar`, `parser`), the
  bean-style name mapping and output escaping (`value`), the scope chain,
  include-path resolution and built-in name tables of the evaluator
  (`engine`), the number-free string, list and map operations of the
  renderer (`render`), and statement execution as a state machine
  (`step`): which `if` branch runs, one `for` body run per item in a fresh
  scope, where `set` binds, which template an `include` loads and which
  escaping mode applies. Each parser is stated as a spec function over
  characters or tokens, and the executable code is proved to compute it.
- `app/` holds the engine itself: template loading and caching from disk,
  the host value model (`PebbleValue`, `ToPebble`, `PebbleObject`, JSON
  values), expression evaluation, whose numbers are floating point, and the
  loop that answers the statement machine's requests.
- `tests/` exercises the library on concrete inputs.
