# evemoddl

A command line manager for Celeste's Everest mods: it fetches the dependency
graph and the update list, pulls mod archives (checking their xxHash), loads
them into the mods directory as hard links, unloads and removes them again,
prints dependency trees and searches the update list.

## Layout

- `src/` is the verified library (Verus). It holds the logic of every
  command: mod identifier resolution, the dependency closure, what `load`,
  `unload`, `remove` and `pull` change in the local state, tree rendering,
  search ranking, hash checking, mirror addresses and configuration fields.
  Each public function states in its contract what it returns or changes.
- `app/` is the program around it: argument parsing, the configuration file,
  reading and writing `files.toml` and the YAML data files, downloads and the
  links and archives on disk. It asks the library what to do and does it.
- `tests/` runs the library on concrete values.
