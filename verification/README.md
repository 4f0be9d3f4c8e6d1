# backend

The path rules and bookkeeping of a game launcher's backend, written in
Verus with proved contracts. Paths are read by the Unix rules (`/` as the one
separator, no drive or UNC prefixes); the crate targets Unix only, and
`app/` refuses to build elsewhere.

- `src/unix_path.rs` — a model of Unix paths (components, `parent`,
  `file_name`, `extension`, `push`, `set_extension`, `add_extension`,
  `set_file_name`) and `UnixPath`, which carries each operation out.
- `src/names.rs` — single-component names (safe to join onto a directory)
  and ASCII trimming.
- `src/aux_path.rs` — where the `.aux.json` metadata of installed content
  lives.
- `src/library.rs` — the content library's hash-addressed layout.
- `src/safe_write.rs` — the temporary file and the steps of a safe write.
- `src/hashing.rs` — SHA-1 checks of downloaded content.
- `src/normal_form.rs` — the normal form of a path, equal for paths that
  `std::path` holds equal.
- `src/folder_changes.rs` — changes of a watched folder and how they merge.
- `src/mods_page.rs` — which files the mods page installs, and its sort row.
- `app/` — file I/O around the library (reading JSON, safe writes, hashing
  files on disk).
