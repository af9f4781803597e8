# rz

Saves and restores Ghostty workspaces: windows, tabs, terminals, their scrollback,
and the Codex and Amp conversations that run in them.

- `src/` is the library. It holds the decisions: how the replies of `ps`, `lsof` and
  Ghostty are read, which terminal shows which conversation, what a snapshot holds,
  which script brings it back, which snapshot is meant or removed, what a watcher
  does next, and what is told about all of it. Each function states what it returns, as
  far as the clock, the machine and chance do not decide it, and Verus proves it; what
  is taken on trust from other crates stands in a few small functions, each with its
  claim.
- `tests/` runs the library.
- `app/` is the program around it: it runs other programs, reads and writes files,
  and prints.

| Module | What it is about |
| --- | --- |
| `text`, `number`, `path`, `quote`, `list` | text, numbers, paths, quoting, ordering |
| `pattern`, `clock`, `random`, `error` | what comes from other crates |
| `model` | snapshots, captured rows, the states of watchers |
| `command`, `agents` | replies of programs, conversations that run |
| `assign`, `assign_laws` | which terminal shows which conversation |
| `ghostty`, `snapshot`, `save` | capturing and saving |
| `restore`, `restore_laws` | the script that restores a snapshot |
| `store`, `clean` | saved snapshots, and removing old ones |
| `watch` | watchers |
| `cli`, `app`, `report`, `ui` | the command line, places of files, reports |

Text is a sequence of characters throughout, and so are paths. Numbers with a
fraction on the command line, and amounts of 2^53 seconds or more, are evaluated by the
program, which hands the library whole seconds.
