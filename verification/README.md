# commentreducr

Strips low-value comments from JS/TS/Python/YAML files in a git repository, and low-value
Python docstrings, while keeping structural ones (linter directives, licenses, TODOs, doctests,
command help). `--delete` removes every non-structural comment or docstring; `--reduce` asks an
OpenAI-compatible model to turn big dense blocks into one line (or a shorter docstring), or to
drop them.

## Layout

- `src/` is the verified library, proved with Verus: comment and docstring extraction from the
  parse tree, grouping into blocks, the structural rules, the keep/delete/reduce policy, the
  byte-range edits and how they are applied, the settings file, what is sent to the model and
  how its replies are read, the file selection from git's listings, and the per-file plan that
  ties these together. The calls into tree-sitter and regex sit behind small trusted wrappers
  whose contracts name their results.
- `app/` is the command-line program around it: argument handling, running git, reading and
  writing files, the HTTP transport to the model, the progress display and the `--eval` runner.
- `tests/` runs the library on concrete inputs.

The laws the library proves include: applying edits keeps every byte outside their ranges, in
order, and does not depend on the order the edits are listed in when no two start at one byte;
the blocks and docstrings it plans are well formed, and every edit a file's plan makes covers one
comment block or docstring and only whitespace around it; a rewritten docstring is a single
string literal that closes exactly at its end, and its text reads back as the new text; a
reduced block becomes a single line; grouping keeps every comment and only merges adjacent line
comments; structural comments are always kept; a progress display with nothing to count never
asks to draw.
