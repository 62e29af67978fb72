# lockjaw

A markdown notes application: a vault of `.md` files under one root
folder, a sidebar of notes and sections, an editor with a preview, themes,
addons (plugins found on disk) and WebDAV sync.

## Layout

- `src/` is the library. Its functions are proved by Verus against their
  `requires` / `ensures` contracts, except the few that call into std where
  vstd gives no specification (the alphanumeric class, lower-casing,
  `String::push`, `String::from_utf8`, in `text`): their contracts are trusted, and say what
  std documents.
  - `text` — strings as character sequences: trimming, searching, prefixes.
  - `path` — `VaultPath`, a path held as its components, and its total order.
  - `vault` — the vault model (sorted note entries, folders) and the paths
    that creating, renaming, moving and deleting notes and sections give.
  - `note` — front matter splitting and the open-note state.
  - `markdown` — word counting.
  - `webdav` — percent encoding of names and UTF-8 percent decoding, reading
    `href`s out of a PROPFIND reply, the sync plan and its statistics.
  - `plugin` — the addon host: loading, enabling, disabling and removing.
  - `sidebar`, `editor`, `addons`, `labels` — the decisions behind the
    windows: what the sidebar lists for a search, which inputs are open,
    what a click asks the application to do, when autosave runs.
  - `theme`, `config` — colour parsing and the bundled defaults.
- `tests/` runs the library on concrete values.
- `app/` is the program around it: file and network I/O, the egui windows,
  configuration on disk, and the parts that work on floating point.
