# sshm

An SSH connection manager: it reads the `Host` blocks of `~/.ssh/config`, lists
them, connects with `ssh <alias>`, and adds, edits or removes a block while
leaving the rest of the file as it was.

## Layout

- `src/` — the verified library (Verus):
  - `text.rs` — characters, Unicode whitespace, trimming, `lines`, words, joining lines;
  - `number.rs` — port numbers as `u16` text, in both directions;
  - `host.rs` — `HostEntry`, its view, and its one-line summary;
  - `parse.rs` — keyword splitting and parsing a config text into entries;
  - `render.rs` — the block written for an entry, and appending it to a text;
  - `edit.rs` — locating, rewriting and removing the block of one alias;
  - `entry.rs` — duplicate checks and building an entry from prompt answers;
  - `error.rs` — the library's errors;
  - `laws.rs`, `laws_edit.rs` — proofs that parsing reads back what rendering,
    appending, rewriting and removing write.
- `app/` — the command-line program: argument parsing, prompts, the picker,
  file access with backups, and `exec ssh`.
- `tests/` — tests of the library.
