# bstr property checks, verified

A library for byte strings that are conventionally, but not necessarily,
UTF-8, together with the property checks that exercise it. The functions in
`src/` are verified with Verus, except four small wrappers in `text` and
`decode` whose contracts are trusted: `char_from_scalar` (`char::from_u32`),
`escape_debug_chars` (`char::escape_debug`), `str_debug` (the `Debug` format of
a `str`) and `string_from_chars` (collecting characters into a `String`).

- `search`: leftmost and rightmost occurrences of a needle in a window, the
  greedy match sequences of both search directions, and the theorem that both
  directions find a needle equally often.
- `split`: `split_str`, `splitn_str` and `rsplitn_str`, each specified piece by
  piece, with the piece counts of the limited forms.
- `decode`: one UTF-8 unit at a time, with ill-formed input replaced by its
  maximal well-formed prefixes.
- `render`: the quoted debug rendering of a byte string, and its laws (control
  bytes and ill-formed units become lowercase `\xNN`, a well-formed U+FFFD stays
  a character).
- `equality`: byte-string equality, also against a `Cow`.
- `etna`: the five property checks and their result type.
- `runner`: the runner's decisions (names, verdicts, combined outcomes, the
  `All` run, frozen witnesses, framework statuses, fuzzing mutations, JSON
  records).
- `json`: reading a JSON string literal back, and the law that it gives back
  what `json_str` wrote.
- `text`: string conversions and the std calls that the library trusts.

`app/` holds the command-line runner, which drives proptest, quickcheck,
crabcheck and hegel; `tests/` holds the tests.
