# Keyboard database preparation

This crate computes the contents of the two SQLite databases of the
Cantonese keyboard: `app.sqlite3`, the dictionary app's database, and
`ime.sqlite3`, the input method's. It reads nothing and writes nothing
itself: `generate_app` and `generate_ime` take the texts of the source
files and return a `DatabasePlan`, the statements to execute and the rows
to insert, in order, or the first defect in the sources.

Every function of the library but one is verified with Verus against a
contract over mathematical models (`Seq<char>` for texts, views of each
type). The exception is `text::push_char`, a trusted wrapper of
`String::push` whose contract (the text gains the character at its end)
Verus takes as given.

Layout:

- `src/text.rs`: texts as characters, trimming, splitting, source lines.
- `src/codes.rs`, `src/code_laws.rs`: the serial, keypad and decimal codes
  (64-bit wrapping), Quick codes, integer parsing, and their laws.
- `src/text_index.rs`: a list of texts with a hash index (`HashMap` keyed
  by a verified `u64` hash), used to find texts without a linear search.
- `src/maps.rs`, `src/words.rs`: maps from texts to texts, lexicon words.
- `src/lexicon.rs`, `src/ime_lexicons.rs`: lexicon entries and tables.
- `src/app_tables.rs`: the tables of the dictionary app.
- `src/cangjie.rs`, `src/strokes.rs`, `src/text_tables.rs`,
  `src/variants.rs`: the other tables of the input method.
- `src/plan.rs`, `src/error.rs`: plans and source errors.
- `src/generator.rs`: the two databases.
- `app/`: the program that reads `res/`, executes the plans with the
  system SQLite library, and replaces each database file atomically.
