# zappy_server

A server for the Zappy game: AI drones roam the toroidal world of Trantor,
gather stones and food, lay eggs and perform elevation rituals; the first team
with six players at level 8 wins. Graphical observers follow the game live.

The library (`src/`) is written in Verus and verified: every public function
states what it returns or changes, and the server's invariants are proved to
hold after each step.

- `game/` — the world (tiles, players, teams, eggs, resource spawning,
  victory), the players' food-as-deadline model, and the AI commands
  (movement, look, inventory, take/set, fork, broadcast with the sound
  direction on the torus, incantation).
- `gui/` — the answers to the requests of graphical clients, including the
  change of frequency, which rescales every pending deadline.
- `protocol/` — the parsers of AI commands and GUI requests.
- `network/` — the bounded line buffers, and the server's decisions: what it
  does when a client connects, leaves, sends a line, and on each turn of its
  loop. Each handler returns the actions to perform.
- `tui.rs` — the state of the terminal dashboard and how it follows the
  server's reports and the user's keys.
- `text.rs`, `lines.rs` — text helpers and the protocol lines.
- `clock.rs` — the wall clock and the random source.

`app/` is the program around it: command-line parsing (clap), the Mio network
loop that performs the server's actions, and the Ratatui dashboard.

```
zappy_server -p port -x width -y height -n name1 name2 ... -c clientsNb -f freq [-b]
```
