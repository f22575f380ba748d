# hatchdoor_vault

The core of a Markdown vault, verified with Verus: which notes a folder of
Markdown files holds, how they link to each other, how they are changed without
losing anything, and how a vault is kept in step with a WebDAV remote.

- `src/` is the library. Its own code is verified; the wrappers around calls
  into other crates and the standard library are trusted, and each says what is
  claimed of its call. The library computes on plain values: paths are strings
  relative to the vault (an index also knows the vault's folder and names files
  on disk in what it reports), and what the disk or the remote says is handed
  in. A plan that needs a folder made asks for it and is planned again.
- `app/` is the code around it: walking folders, reading and writing files,
  HTTP, timers.
- `tests/` runs the library on concrete vaults.

## Where to look

| Module | What it states |
| --- | --- |
| `index`, `claims`, `slugs`, `graph` | the catalog of notes, their slugs, links, search and folder tree |
| `links`, `paths`, `assets` | how a link or an embed finds its file |
| `layers`, `exclude` | layer markers and excluded files |
| `note_ops`, `note_text`, `frontmatter`, `frontmatter_edit` | changes to one note |
| `asset_refs`, `asset_plan`, `rewrites`, `backlinks`, `attachments` | what a move changes elsewhere |
| `mutation`, `protocol` | carrying a change out step by step, and taking it back |
| `webdav`, `requests`, `sync`, `scheduler` | the WebDAV remote |
| `executor`, `vault_error` | background turns and what they report |
| `text`, `tables`, `files`, `hash`, `markdown` | what the others are built from |

A type with text in it has a view, and contracts are stated over views and over
`Seq<char>`. Properties that span functions are public proof functions beside
the definitions they speak of.
