# tungsten

Tungsten syncs PNG assets to Roblox: it packs or uploads each configured
input's images, remembers every upload in `tungsten.lock.toml` so that
unchanged images are never uploaded twice, and writes code that maps image
names to asset ids.

- `src/` is the verified library:
  - `lockfile` — the lockfile (input → fingerprint → asset id), with proofs
    that a lookup returns what was recorded, that recording leaves other
    entries alone, and that listing and rebuilding a lockfile gives it back;
  - `hashing` — PNG encoding of pixels and image fingerprints (SHA-256 in
    lowercase hex);
  - `upload` — when a Roblox request is retried, how an upload operation
    is polled, and reading decimal numbers;
  - `roblox` — the creator and the upload request;
  - `sync`, `config_test` — the decisions of the `sync` and `test` commands,
    including how each failure is counted and recovered from;
  - `assoc`, `text` — association lists and character helpers.
- `app/` holds the I/O around it: TOML and JSON, HTTP, the file system, and
  the command loops.
- `tests/` exercises the library on concrete values.
