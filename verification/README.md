# pantry

A terminal command cookbook: reusable shell recipes kept in TOML files, listed, searched,
rendered with placeholder values, copied to the clipboard or run.

The library (`src/`) holds the logic, verified with Verus:

- `template`: placeholders in `{braces}`, rendering with values, `key=value` assignments;
- `model`: recipes, their validation and the assembly of the global and local recipe files;
- `exec`: finding a recipe by name and resolving `--set` values;
- `cli`: what each headless command prints or runs;
- `clipboard`: which clipboard programs to try, in which order;
- `state`: the interactive interface as a state machine from keys to effects;
- `screen`: the painted lines of the details pane, the list and the prompt;
- `text`, `strmap`: text helpers and a string-keyed map.

The program (`app/`) reads the command line and the recipe files, drives the terminal, the
clipboard and the commands, and draws what `screen` lays out.
