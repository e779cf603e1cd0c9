# arborio

The verified core of a map editor for Celeste.

- `src/` is the library, verified with Verus: integer geometry in tile,
  room and map space; tile grids, tile patches and the bucket fill; the
  binary map format (its reader, its writer and the round trip between
  them); SID and version parsing; module bookkeeping; room naming, picking
  and resizing; the packed sprite atlas formats; the edits of a room and of
  a whole map with their exact inverses, batches of edits and the undo and
  redo history; the editor's tab and log state, including closing dead tabs
  and unloading their maps; and the room, pencil and selection tools as
  steps from input to requested edits (lifting, nudging, resizing and
  deleting the selection).
- `tests/` exercises the library on concrete values.
- `app/` holds what touches the outside world: reading and writing files,
  YAML through serde, the process-wide identifier counter and walking a
  module's folder.
