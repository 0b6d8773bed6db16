# al

A small Lisp: a tokenizer, a reader and an evaluator, verified with Verus.

- `src/` is the library. Each module states what it computes as spec
  functions (`tokenize`, `read_tokens`, `eval_spec`, `add_spec`, ...) and
  proves its executable functions against them; the laws (`law_*` proof
  functions) state properties that hold across functions and inputs.
- `tests/` runs the library on concrete programs.
- `app/` is the command-line program: it reads a file, runs it with
  `interpreter::run_source` and prints the reports.
