# luminol_fs

The filesystem layer of an RPG Maker project editor, verified with Verus: the encrypted
RGSSAD archives (versions 1 to 3), each edit of which writes the whole archive anew in memory
from the files it holds (a file whose size changes moves to the end), the directory trie that
indexes them, the layered filesystems a project is seen through (a list, an overlay, a case-insensitive
path cache and the project's own states), the decisions taken while loading a project, and the
integer layout of the map renderer's atlases and passages.

- `src/` is the verified library. Each public function states its result in `ensures`. The
  `FileSystem` trait names the answers of each of its methods by a relation that each
  implementation defines; the layers (list, overlay, case-insensitive cache, project) define
  theirs from the filesystems they stand on, so their contracts say which filesystem was asked
  what, in which order, and what came of its answer. The laws of the library (key streams that
  undo themselves, archives that parse back to what was written, a read that gives back the
  last write, case-insensitive lookups) are proof functions or clauses of those contracts.
- `tests/` runs the library on concrete values.
- `app/` holds what touches the machine: the host filesystem, archives on disk, the error type
  with its messages, and the loading of a project from a folder.
