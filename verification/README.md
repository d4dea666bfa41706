# nix-zed-extensions

Generates Nix expressions for the extensions of the Zed editor's extension
registry, and installs built extensions.

- `src/` is the verified library: the catalogue records (`output`), the
  registry tables and their merge (`registry`), the sync steps that edit the
  catalogue (`catalog`), stable ordering by key (`order`), output file names
  and stale files (`files`), grammar ids and roots (`grammar`), git and
  `nix-prefetch-git` arguments (`git`), the `install`/`populate` decisions
  (`install`), and the character-level operations they rest on (`text`).
- `app/` is the command-line program: it runs git and `nix-prefetch-git`,
  reads and writes the JSON and TOML files, and drives the sync concurrently.
- `tests/` exercises the library on concrete values.
