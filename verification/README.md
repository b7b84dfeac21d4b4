# Turun Map

A map of a Grepolis server: it fetches the server's world data (players,
alliances, towns, islands), and draws every town on the map, with the towns
that the user's selections pick out in the selection's color. A selection is
a list of constraints (player name is ..., alliance points are at least ...,
the town is in another selection ...) joined with `and` or `or`.

- `src/` is the library, verified with Verus: reading the world data files,
  linking towns to their owners, islands and slot offsets, the constraints and
  which towns pass them, references between selections and their cycles, the
  values the drop down lists offer, the rules of editing lists of selections,
  refreshing a selection and the selections that refer to it, importing
  selections, the mailing list of picked towns, the names of saved files, the
  short form of constraints, the address of a shared map, the version check,
  and the preferences.
- `app/` is the program around it: the window (egui), fetching data over the
  network, files on disk, the clipboard and dialogs, the stored state, and
  everything drawn in floating point.
- `tests/` runs the library on concrete data.
