# nock

A small Nock interpreter, verified with Verus.

- `src/noun.rs`: nouns (atoms and cells), structural equality, head/tail/number access.
- `src/tree.rs`: the slot (`/`) and edit (`#`) operators on axes, with their laws.
- `src/interp.rs`: the reduction semantics as spec functions indexed by fuel, the
  interpreter `eval` (for formulas that halt) and the bounded `eval_within`.
- `src/codec.rs`: the byte encoding of nouns and its decoder, with round-trip laws.
- `src/text.rs`: the text reader `parser` and the printer `pretty_print`.
- `app/main.rs`: the program: encodes a noun, writes it to `test.noun`, reads it back.
