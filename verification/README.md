# fzd

An interactive terminal directory explorer that `cd`'s your shell: a fuzzy,
keyboard-driven TUI that prints the chosen directory for a shell wrapper to
`cd` into.

This crate holds its logic as a Verus-verified library:

- `app`: the explorer state (browse, jump and find modes) and its
  transitions; work that needs the disk is returned as an `Action`.
- `event`: the keymap and the dispatch of key presses onto transitions.
- `fuzzy`: fuzzy filtering with the skim matcher, best score first.
- `order`: a stable sort by lexicographic keys, used by every list.
- `fs`: directory listings, the find-mode walk as a state machine (with
  its laws: every directory it finds is reached from the root, a finished
  walk misses none, and none is found twice when the listings repeat no
  path), and human-readable sizes and ages.
- `store`: frecency and bookmark records and the jump-list ranking.
- `ui`: the text of what the screen shows.
- `update`: version comparison, release assets, update planning and
  picking the binary out of a release archive (`.tar.gz` or `.zip`).
- `text`: verified string helpers.

`app/` is the program around it: argument parsing, the terminal, reading
directories, the store file, the network and the binary swap.
