# filterfs

A read-only FUSE mirror of a directory that shows only what its glob rules let
through, and can hide directories that show nothing.

Mount options: `incl=glob` and `excl=glob` select and reject files,
`dincl=glob` and `dexcl=glob` select and reject directories, `prune=n` sets how
many levels down a directory is searched before it is hidden as empty (0, the
default, hides nothing), and `allow_other` lets other users in. A name is shown
when it matches one of the selecting globs (or there are none) and none of the
rejecting ones.

Layout:

- `src/` is the library, verified with Verus: option parsing (`args`,
  `options`), the rules (`pattern`, `filter`), inode and file-handle numbering
  (`id`, `inoman`, `fhman`), file attributes (`utils`), the search for empty
  directories (`prune`, a step machine that asks for one directory listing at a
  time) and the decisions of each file-system request (`filterfs`).
- `app/` is the program: command line, FUSE session and the reads of the
  source tree, with each decision taken by the library.
- `tests/` runs the library on concrete inputs.
