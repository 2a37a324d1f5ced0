# launch

A launcher window: your everyday helpers from `~/.launch` laid out in
columns at the top, and every program on the PATH found as you type below.

The logic is a Verus library under `src/`, each function proved against
its contract:

- `helpers` reads the helpers file (`Name [Hotkey] = command`, `#` for a
  comment, a blank line between groups).
- `search` ranks the programs whose lower-case names hold the query.
- `columns` spreads groups over columns as evenly as whole groups allow.
- `launcher` holds the state and what each key does to it.
- `layout` places helpers, the search field and the programs on screen.
- `programs` reads the shell's cache of executables and sorts the names.
- `cells`, `text` and `window` hold the smaller pieces.

Public proof functions named `law_...` state what holds across calls,
such as that taking back a typed character restores the query and its
matches, or that a group never splits across two columns.

`app/` is the program around the library: arguments, files, the terminal
and starting what was picked.
