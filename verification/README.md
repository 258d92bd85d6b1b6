# Harvest

Verified media ingest: copy footage and files from a source (SD card, camera,
project folder) to one or more destinations, and prove that the bytes arrived
intact. Harvest reads the source once, writes to every destination, forces the
data to physical disk, then reads each destination back and compares checksums
with the source.

## Layout

- `src/` — the library, written in Rust and verified with Verus. It touches no
  disk: what was read, walked or looked up comes in as values, and what is to be
  done next goes out as values.
  - `text`, `path`, `dates`, `sort`, `group`: characters, paths, the calendar,
    stable sorting, grouping by key.
  - `hash`, `copy`: streaming checksums, and a copy as a sequence of actions
    from opening the source to reading the last destination back.
  - `scan`, `filter`, `template`, `journal`, `manifest`: what a walk found,
    which files to take, where to put them, what is already done, and the proof
    of transfer.
  - `run`, `transfer`, `reverify`: a configuration and its pre-flight plan, a
    whole run, and re-verification without copying.
  - `survey`, `drive`, `request`, `presets`, `settings`, `history`, `console`:
    what the front ends show and store.
- `tests/` — the library on concrete values.
- `app/` — the program: command line, file system, and the commands behind a
  desktop shell.

Each module states in its contracts what its functions return. Laws that hold
across functions are public proof functions; where a module has some, they stand
together, most often at its end. The checksum algorithms, the calendar date and
the RFC 3339 text of an instant, lower-casing outside ASCII and appending a
character to a string come from outside; the items that call them say what is
taken on trust.
