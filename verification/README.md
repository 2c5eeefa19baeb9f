# moyu

A desktop notebook's library: daily to-do lists and a library of notes,
kept as Markdown (and any other) files in a data folder.

- `src/` is the library, written and proved with Verus. `Store` reads what
  `DataFolder` holds of the data folder and decides each operation; every
  operation records the `Change`s it makes, and its contract states its
  result and those changes exactly (`*_changes` spec functions in
  `store.rs`). The file formats (`todos.rs`, `notes.rs`, `order.rs`), names
  and dates (`names.rs`, `dates.rs`), the shown order (`arrange.rs`) and
  size labels (`sizes.rs`) each have their own module.
- `readback.rs`, `guarantees.rs` and `carry.rs` hold what holds across
  calls: what the order file reads back, what a saved note or day reads
  back, what dragging, creating and deleting categories lists, and that
  carrying unfinished items forward settles.
- A file or category folder read from the disk keeps the location it was
  found at, links resolved (`folder_place`, `note_place` in `model.rs`);
  a file the store has just written, renamed or imported lies under its
  name in the place of its folder, and a folder it has renamed in the data
  folder's resolved location. Where the file system ignores case
  (`DataFolder::ignore_case`), names that differ only in case are taken to
  name the same file when the store checks for a name that is in use.
- `app/` reads the data folder from the disk, carries the changes out on
  it, and offers the commands that the window calls.
- `tests/` run the library on folders held in memory.
