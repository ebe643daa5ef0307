# regexlr

A builder and matcher for RegexLR grammars: regular-expression-like grammars
with unordered choice, named rules and recursion, verified with Verus.

- `src/pool.rs`, `src/index.rs`, `src/probe.rs`, `src/key.rs`: append-only
  pools addressed by typed indices, and deduplicating pools backed by a Robin
  Hood hash index.
- `src/bitset.rs`: the sets of production indices and match ends, held in
  `bit_set::BitSet`; such sets can also be keys of a deduplicating pool.
- `src/grammar.rs`, `src/grammar/examples.rs`: the grammar builder (literals,
  sequences, alternations, rules, start rule) and a few example grammars.
- `src/language.rs`: what it means for a grammar to match an input.
- `src/failure.rs`: where the failing attempts of a grammar reach in an
  input; a failed match is reported at the furthest such point.
- `src/matcher.rs`, `src/error.rs`: a packrat matcher with memoization that
  grows the matches of a left-recursive rule until they stop changing. Every
  input it accepts is in the grammar's language; for grammars whose left
  recursion, if any, is direct (a rule that reaches itself without consuming
  input only through a capture of itself) it accepts exactly the language.
  Left recursion through another rule is not followed to the end: such a
  grammar can miss matches.
- `app/main.rs`: prints the structure of two small grammars.
