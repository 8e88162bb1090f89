# sprout

git worktrees with copy-on-write working state.

`git worktree add` gives a clean checkout, and none of the `node_modules`, build
output, caches or `.env` that the work needs. `sprout` clones every git-ignored
file and directory of the current worktree into the new one, sharing the data
until one of the two changes.

## Layout

- `src/` is the library, verified with Verus: the decisions, the texts and the
  rules. It touches neither git nor the file system.
  - `text`, `bytes`, `path`: trimming, numerals, cutting up rows of bytes, and
    Unix paths.
  - `repo`: what git is asked and what its replies mean, where worktrees live,
    and what is pruned after them.
  - `config`, `scrub`: `.sprout/config.json` and `.sproutignore`.
  - `stage`: names, owners and age of staging entries, and which of them the
    sweeper deletes.
  - `clonefile`, `progress`: hints, warnings and the spinner.
  - `steps`, `create`, `remove`, `commands`: the commands. `create` and `remove`
    are state machines that ask for one action at a time and are told what came
    of it.
- `app/` is the program: it parses the command line, runs git, and carries out
  the actions.
- `tests/` run the library on given values.

## What is proved

Among other things: an interrupt at any point of the building of a worktree is
final, its path is never printed, and what was made is taken back, down to the
empty directories; nothing is moved into the worktree before every entry was
tried; a run that comes through has tried every ignored entry, once and in order,
and has moved each of them but those that were there already or failed, and the
user is told of each that failed; for names of the shape that git accepts,
worktrees never leave `.sprout`, and they are never cloned into each other; a
worktree with changes to tracked files is not removed unless by force; a branch
goes with its worktree, and only once that is gone, unless it is to stay; the
sweeper deletes nothing outside of a staging root; the scrub removes the topmost
paths that the patterns ask for and nothing else, and only in entries that were
cloned and moved into the worktree, so that tracked files are never touched.

What git, the file system, `serde_json` and `ignore` do is taken as stated where
the library calls them or is told about it.
