# verse

The decisions of the verse music player, as a library verified with Verus,
and a small program around it.

`src/` holds what the player decides, each function with its contract:

- `layout`: the pane tree and its entries, splitting, closing, moving and
  locking panes, and the default layouts.
- `keybinds`: keys, bindings, actions and the keymap, and how a keymap is
  saved and read back.
- `pane` and its children: what each pane kind is called and looks for,
  per-pane state and the updates it takes, and the words panes show.
- `artwork`: the keys covers are filed under, the sizes they are cut at, the
  cache of decoded pictures and cut sizes, covers fetched by URL, and the
  median cut a cover's colors are read from.
- `art_cache`: which covers a frame wants, which are in flight and ready,
  and which have gone stale.
- `download`: searches, their results and the downloads they start.
- `input`, `settings`, `preferences`, `config`, `formatters`, `components`,
  `text` and `table`: input handling, settings, readings, and the text and
  table helpers the rest is written with.

`app/` reads and writes the configuration file, turns the float measurements
of the window into the whole units the library works in, and scores cover
colors, which is float arithmetic from end to end.

`tests/` exercises the library on concrete values.
