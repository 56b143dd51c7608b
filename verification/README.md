# filele

Fast file transfer between machines on one network: small files back to back on
one connection, large files in chunks over several.

The library in `src/` holds what a transfer is made of, and its contracts are
proved with Verus. The program in `app/` opens connections, reads and writes
files and draws the window; it does what the library says to do next.

## The library

| Module | What it holds |
|---|---|
| `protocol`, `wire`, `path` | constants, little-endian integers, paths on the wire |
| `messages`, `entry` | the messages of both connections and the headers of entries |
| `jobs`, `sort` | what there is to send, and in which order |
| `sender`, `sending` | the sending side: its state, and what it does next |
| `receiver`, `receiving` | the receiving side: its state, and what it does next |
| `transfer` | what holds of the two sides of a transfer, step by step |
| `sender_run`, `receiver_run`, `data_run` | each side and each data connection from its opening to its end |
| `delivery` | a whole transfer: what is on disk where both sides have ended |
| `discovery` | searches for receivers and the answers to them |
| `progress`, `tab`, `gui`, `palette`, `settings` | reports, and the state of the window |
| `text` | strings as sequences of characters |
| `outside` | what is taken from other crates and trusted, with its contracts |

The functions named `law_...` state what holds across several functions: that
what one side writes the other reads, that a transfer arrives as it was sent,
that no path leads out of the folder it is saved to.

## Not covered by proof

Speeds, percentages and times in words are computed in floating point, in
`app/words.rs` and beside the drawing. The files on disk, the connections and
the clock are the program's.
