# ergibus

A file backup library: archives name the files and directories to keep,
snapshots record the state of those files as a directory tree whose file
contents live in a content repository.

## Layout

- `src/` is the verified library (Verus). Its main parts:
  - `paths`, `path_ext`, `lib_path_ext`: path components, path kinds and
    expansion of `~`, `.` and `..`;
  - `fs_objects`, `snapshot_dir`: the directory trees that snapshots
    record, kept in name order, with lookup, insertion and traversal;
  - `archive`, `globs`: archive snapshot directories, inclusion and
    exclusion rules (globset behind trusted wrappers);
  - `snapshot`: snapshot file names (regex behind trusted wrappers),
    their order and the persistent data of a snapshot;
  - `snapshot_file`: the bytes of snapshot files, Snappy frames of the
    `snap` crate behind trusted wrappers;
  - `ordered_map`, `names`: an ordered map and the order of names;
  - `config`, `content`, `cli`, `clap_cmds`, `gui`: configuration paths,
    command choices and the state of the browsing views.
- `tests/` runs the library on concrete values.
- `app/` is the command line program: file system access, snapshot files,
  serialisation and argument parsing, calling the library for each
  decision.
