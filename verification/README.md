# rofl

The completion engine of a Neovim completion plugin, verified with Verus.

- `src/` is the library: entries and their fuzzy scores (`entry`, `score`,
  `matcher`, `order`), the laws of ranking (`ranking`), the menu of entries
  shown to the user, built in a score-keyed `BTreeMap` (`keys`), and the
  completor's state (`completor`), the sources' own logic (`source`), the notifications the
  editor sends (`handle`) and decimal text (`text`).
- `app/` is the plugin process: it talks to Neovim over msgpack-rpc, runs the
  sources concurrently with time limits and hands their entries to the library.
- `tests/` runs the library on concrete values.
