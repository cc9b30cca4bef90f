# memfs

An in-memory file system with a small system-call layer, written in Verus.

Call path:

```text
Kernel::sys_open / sys_read / sys_write / ...
        |
        v
Process fd table  (smallest free descriptor, one handle per descriptor)
        |
        v
FileHandle        (inode number, own offset, access options)
        |
        v
MemFS inode table (regular files: bytes; directories: sorted name -> inode)
```

Two opens of one path give two handles on one inode: they share the bytes
but each has its own offset. An unlinked inode stays in the table, so a
descriptor opened on it keeps working.

Design notes:

- Inodes are named by their number in `MemFS`'s table, not shared by
  pointer. `MemFS::create` allocates the new inode and then records its number
  in the directory with `Inode::create(name, child)`, which therefore takes the
  child's number rather than a file type.
- Calls that change an inode or a handle take `&mut self`; there are no
  locks. `FileHandle::read` and `FileHandle::write` take the `MemFS` they act
  on, since a handle holds only an inode number and its own offset.
- A handle is changed in place by taking it out of the descriptor table and
  putting it back (`Process::take_file`, `Process::put_file`).
- `mkdir` and `unlink` refuse a last name that no lookup can reach (empty,
  `.` or `..`) with `Error::Invalid`.

Layout:

- `src/error.rs` – the error kinds.
- `src/fs/vfs.rs` – `FileType`, `Metadata`, the `Inode` trait, the byte-level
  model of files (`file_read`, `file_write`, `file_resize`) and of sorted
  directory entries.
- `src/fs/memfs.rs` – `MemInode`, `MemFS` and the inode-table model
  (`fs_create`, `fs_find`, `fs_unlink`, ...).
- `src/fs/path.rs` – `split_parent`, `PathCursor` and the path model
  (`components`, `split_parent_spec`).
- `src/fs/file.rs` – `OpenFlags`, `OpenOptions`, `FileHandle`, `FileLike`, `File`.
- `src/process.rs` – the descriptor table (a `BTreeMap` from descriptor to
  handle) and working directory.
- `src/syscall/` – `Kernel`, the model of every call (`model.rs`) and the
  properties proved of it (`laws.rs`).
- `app/lib.rs` – `OpenFlags` with the `bitflags` interface, converting to and
  from the library's flags.

Every call of `Kernel` is specified as a function of the abstract state
(`KernelView`: inode table, open descriptors, working directory) and keeps
the state's invariant.
