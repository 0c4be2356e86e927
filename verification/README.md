# rano

A small nano-like terminal text editor whose editing logic is a library
verified with Verus.

- `src/` is the library: buffers, lines and the undo stack; cursor movement;
  typing, deleting, indenting, commenting, undo and redo; cut, copy and paste;
  plain and regular-expression search, replace and go-to-line; opening files
  into buffers and turning buffers back into file contents; the key tables and
  the dispatch of keys to editor functions; the prompt, yes/no questions, the
  help viewer and the file browser as step functions (state and key in, new
  state and outcome out); the nanorc language; syntax definitions and line
  coloring; the search and position histories. Every public function states
  what it returns or changes in its `ensures`, over views of the data
  (`EditorView`, `BufferView`, `LineView`, ...). Functions named `law_*`
  state properties that relate several operations (undo after an edit,
  paste after a cut, writing after opening, ...).
- The calls into the `regex`, `unicode-width` and `dirs` crates, and a few
  std functions that vstd does not specify, go through small trusted
  wrappers whose contracts say what those crates document.
- `app/main.rs` is the program: command-line options (clap), the terminal
  (crossterm), reading and writing files, the system clipboard and the main
  loop, which asks the library what each key does.
- `tests/` runs the library on concrete cases.
