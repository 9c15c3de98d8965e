# timekit

Parsing and formatting of human-readable time durations, verified with Verus.

`parse` reads strings such as `1h 30m`, `2h30m45s`, `500ms`, `1 hour` or
`01:30:00` into a `std::time::Duration`; `DurationFormatter` and the `format*`
functions write durations back in a compact, spaced, long or clock style at a
chosen precision.

## Layout

- `src/text.rs`: character classes (White_Space spelled out in full,
  Alphabetic named, with no whitespace character alphabetic), lowercasing,
  decimal notation.
- `src/duration.rs`: the view of `Duration` (whole seconds and nanoseconds).
- `src/error.rs`: `Error`, its view and its description.
- `src/parse/tokens.rs`: the tokenizer and `tokenize_spec`, the tokens of a string.
- `src/parse/grammar.rs`: the parser and `parse_spec`, the duration a string
  stands for (surrounding whitespace, the `MM:SS` / `HH:MM:SS` clock grammar,
  the unit-based grammar, duplicates, overflow). A clock is refused first for
  a token that is neither a number nor a colon, then for a count of numbers
  other than two or three, then for numbers and colons that do not
  alternate. Error positions are counted in the input as given. Two spellings of units normalize alike
  exactly when they stand for the same length.
- `src/parse/case.rs`: units are read without regard to letter case, for
  every input whose letters are ASCII.
- `src/parse/spacing.rs`: whitespace around the input changes nothing but
  the positions that errors report.
- `src/parse/joining.rs`: two unit-based expressions that share no unit,
  joined by a space, stand for the sum of their lengths.
- `src/format.rs`: the formatter and `format_text`, the text of a duration;
  a finer precision only appends to the text of a coarser one, and the
  compact text is the spaced text without its spaces.
- `src/roundtrip.rs`: parsing what the formatter writes gives back the
  duration as far as the style and precision show it.

Every public function states its result exactly in terms of these spec
functions; `parse` and the formatter never panic.
