# omnibook_rs

Settings application and presence daemon for the HP OmniBook (GTK 4 / libadwaita), with its
logic in a library verified by Verus.

- `src/` — the verified library: presence settings and their `key=value` text form
  (`presence_config`, `presence_choices`), the daemon's sensor loop, consensus and actions
  (`daemon`), what the loop does over a whole run of readings (`sensor_run`), the socket and state-file messages (`ipc`), EDID parsing and HDR patching
  (`edid`), the haptic touchpad (`haptic`), and what the system, battery, sensor and touchpad
  pages compute from the text they read (`system_info`, `battery`, `sensors`, `mouse`).
  `text` holds the string model (trimming, searching, lines, decimal numbers, ordering) the
  others are stated over.
- `tests/` — tests of the library on concrete values.
- `app/` — the program: the GTK pages, file, socket and device I/O, and the daemon's main
  loop (`omnibookd`, or the program run with `--daemon`).
