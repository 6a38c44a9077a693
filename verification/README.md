# drill

A command-line tool to learn information through spaced repetition, with its
logic verified by Verus.

## Layout

- `src/` is the verified library.
  - `text.rs`, `common.rs`: string helpers, errors and command options.
  - `format.rs`, `persistence.rs`: the quiz file format, as spec functions and
    as a parser proved against them; `parser.rs` holds the earlier format.
  - `quiz.rs`, `session.rs`, `repetition.rs`: questions, grading, the steps of
    taking a quiz, and the choice of questions by spaced repetition.
  - `results.rs`, `paths.rs`: stored results, the results table and where
    results are kept.
  - `cli.rs`: the command line.
  - `quiz2.rs`: the second quiz model, loaded from a database.
  - `json.rs`, `popquiz.rs`: the JSON quiz program and its question filters,
    orderings and answer checks.
  - `random.rs`: the random number generator and shuffling.
- `app/` is the program around the library: terminal input and output, files,
  the database and the JSON files.
- `tests/` holds the tests.
