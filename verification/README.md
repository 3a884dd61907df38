# unterm

The engine of an in-editor terminal, code editor, agent panel and debugger.

- `src/` is the library: plain state and functions over it, each with a contract that
  Verus proves. It takes text, numbers and values that describe what the outside world
  did, and returns what to show or what to do next. Calls into other crates (JSON,
  grammars, syntax themes, relative times, character widths) stand behind small trusted
  items that say what is believed of them.
- `tests/` runs the library, with the other crates linked.
- `app/` is the program around it: engine processes, files, the GPU, the debugger's
  window and the C interface.

What should hold of the library as a whole is stated by the public proof functions whose
names start with `law_`, each next to the functions that it is about.
