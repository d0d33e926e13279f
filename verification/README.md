# optim

A minimal app launcher for Windows: a popup on a global hotkey that
fuzzy-searches the installed apps, runs built-in commands, evaluates
arithmetic, runs `>` shell commands, and keeps a persistent queue of videos
for mpv.

## Layout

- `src/` is the library, verified with Verus. Every public function states
  what it returns in its contract, and the properties the launcher promises
  are proved as lemmas:
  - `matcher`: the fuzzy score; a name matches exactly when the query is a
    subsequence of it.
  - `calc`: the calculator's grammar, as a parser into an expression tree.
  - `config`: the config file, themes and the hotkey syntax.
  - `hidden`, `frecency`: the hidden-apps list and the launch counts, with
    their files' formats (reading back what was written gives the same map).
  - `launcher`: the popup's decisions: keys, query editing (Ctrl+A
    replaces), ranking (hidden apps never appear), pasted video URLs,
    selection, Enter (Ctrl+Shift+Enter elevated), the tray menu and the font.
  - `gamemode`: when the hotkey opens the popup; three presses within two
    seconds always do.
  - `watch`: the watch queue: history format, player commands, download
    names, and the startup sweep (it never drops a remembered video).
  - `services`: the steps that start, stop and restart the background tools.
  - `index`: app entries and icon pixels.
  - `text`, `keyed`: character and map helpers shared by the above.
- `app/` is the Windows program around the library: the window, Direct2D
  drawing, the shell, the registry, files, processes and the mpv pipe, and
  the floating-point parts (evaluating and printing calculator results,
  window and font sizes).
- `tests/` exercises the library on concrete values.
