# nomansmanager

The backend logic of No Man's Manager, a cross-platform mod manager for
No Man's Sky, written as a Verus library: each function states what it
does in `requires`/`ensures` and Verus proves it.

## Layout

- `src/` — the verified library, one module per concern:
  `store`, `deploy`, `intake` (adding and importing mods), `profile`,
  `locate` (finding the game), `savefiles`, `hg` (the LZ4 block container
  of saves), `json` (the document model and paths into it), `keymap`
  (renaming obfuscated keys), `bases`, `payload` (importing a base),
  `export`, `logs`, `migration`, and the helpers `text`, `paths`, `names`,
  `sort`, `clock`.
- `tests/` — tests run against the compiled library.
- `app/` — the unverified shell: file system, network and process work,
  serde types, and the commands, each handing plain values to the library.

## Laws proved

Among the properties proved over the whole library: LZ4 block compression
round-trips; every name a deploy gives is cleared by the next deploy and
sorts in list order; re-importing a deployed folder gives its id back;
syncing a profile keeps the user's order and flags and is idempotent; the
log keeps its newest lines; renaming keys through a mapping and back gives
the document back when the mapping allows it; a write at a path is read
back there; an imported base is read back from its slot and exporting then
importing a base gives the save back. These laws are proved over the JSON
document model; turning documents into text and back (serde) happens in
`app/` and is not part of what is proved. Also proved: a renamed mod is
listed under its new id and no longer under its old one, the save editor's folders nest inside its saves
folder, an exported `.nmsbase` text reads back as its objects' text,
making a name file-safe twice changes nothing, and with a one-to-one
mapping renaming keys there and back gives the document back.
