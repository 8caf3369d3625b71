# notfail

Runs a test command and shows only what matters of its output: how far it has come, and what fails.

- `src/` is the verified library. It decides which lines tell of a failure, how many tests have
  run, what the progress bar looks like, what is remembered of a directory, and what a running
  instance and those who watch it tell each other.
  - `text`, `ansi`: characters, words, numerals and escape sequences.
  - `chunks`: whole characters out of bytes that come in pieces.
  - `counts`, `failure`: what a line of output says.
  - `binary64`, `rounding`, `progress`: the progress bar, with double-precision rounding done in
    whole numbers.
  - `cache`, `paths`, `select`: what is remembered, where it lies, and the choice of a directory.
  - `run`, `protocol`, `launch`: one run, its watchers, and what comes before and after.
- `app/` is the program around it: the pseudo-terminal, the socket, the files and the keyboard. It
  also looks whether a directory holds a package.
- `tests/` runs the library on concrete values.

Proof functions named `law_...` state what holds across functions.
