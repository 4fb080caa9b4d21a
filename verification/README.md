# texpand

A terminal-native text expander: typed triggers such as `:hello` expand to
their replacement, forms collect values for command templates, and a CSV
database lists every trigger for fuzzy search.

The library in `src/` is written in Verus, and its functions are proved
against their contracts. A few small functions are trusted rather than
proved, because they only call the standard library or serde_json:
`text::to_lowercase` (`str::to_lowercase`), `text::push_char`
(`String::push`), the file-stem helper behind `TriggerRecord::from_configs`
(`Path::file_stem`), and `TriggerRecord::to_json_value` and
`records::records_to_json` (`serde_json::to_string_pretty`). What each is
trusted to do is written in its doc comment.

- `matcher` finds the triggers that end the typed text at a word boundary,
  longest first, and proves that it reports exactly those;
- `template` fills `{{name}}` variables and `[[name]]` form fields;
- `form` and `fields` turn match configurations and form variables into
  form fields and plan how a form screen lays them out;
- `records` builds the trigger database, its CSV and JSON text, the merge
  that keeps hand-written rows, and search;
- `cli` holds the decisions of the command line (fallback form values,
  binding form values to variables, tidying generated `find` commands);
- `inject` decides what is run to type an expansion;
- `buffer` is the rolling buffer of recent keystrokes;
- `strmap`, `text` and `yaml` are the string map, string functions and YAML
  values the rest is built on.

Public `law_*` proof functions state the properties that hold across calls,
such as reading back a binding after it is written, a merge keeping every
hand-written row, or tidying and merging changing nothing the second time.

`app/` is the `cli-expander` program around the library: argument parsing,
reading match files, reading and writing the CSV file, the terminal forms, and
running `tmux`, `ydotool` and the clipboard. `tests/` exercises the library
on concrete values.
