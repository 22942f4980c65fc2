# jlang

A small interpreter for a subset of the J language, verified with Verus.

It scans a sentence into words (numbers, strings, names and the primitives of J),
parses the words right to left with J's parsing rules, and applies the verbs `+ - * # $`
to n-dimensional arrays, with ndarray's broadcasting and J's promotion of argument
precisions. Every function of the library carries a contract over a mathematical model
of the words and arrays, and Verus proves the code against it.

## Layout

- `src/array.rs`: arrays in row-major order, their shapes, and broadcasting.
- `src/word.rs`: words, nouns, verbs and their mathematical values.
- `src/text.rs`: character classes, splitting on blanks, integer and float literal syntax.
- `src/primitives.rs`: the tables of primitive verbs, adverbs, nouns and conjunctions.
- `src/scan.rs`: the scanner.
- `src/verbs.rs`: the verbs and adverbs.
- `src/eval.rs`: the parser and evaluator.
- `src/cells.rs`: splitting a noun into its cells.
- `src/laws.rs`: properties that relate several functions (commutativity of `+` and `*`,
  tally, shape and reshape, cells, string literals, and what evaluation gives for
  the simplest sentences, which it parses right to left).
- `src/padding.rs`: blanks around a sentence change no word.
- `app/`: conversions of nouns to ndarray arrays, including the `f64` values of
  floating-point elements, which the library keeps as terms.
