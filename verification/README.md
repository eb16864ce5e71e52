# tack

Pins for nix flakes kept in a TOML file, lazily fetched and locked.

`src/` is the library, verified with Verus:

- `text`: character-sequence helpers (search, replace, split) with their specifications.
- `shorturl`: expansion of short urls (`alias:path`) through alias templates, and the
  normalization of `git+` urls whose path names a branch.
- `nar`: NAR serialization of a file tree, its SHA-256 and the SRI string (`sha256-` and
  base64) that `builtins.fetchTree` reports.
- `ui`: the status lines shown while pins are fetched.
- `cli`: parsing of the command line into a `Command`.
- `pins`: reading and editing the `shorturls` and `inputs` tables of `pins.toml`.
- `commands`: what each subcommand decides: which inputs to work on, how the document
  changes, and what a pin's status becomes.

`app/` is the program around it: argument and file I/O, fetching, threads and the terminal.
