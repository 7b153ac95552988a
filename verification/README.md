# system_trace

The verified core of a desktop activity tracker.

- `src/` is the library, checked by Verus:
  - `crypto`: the on-disk form of the encrypted database
    (`nonce || XChaCha20-Poly1305 sealing`), with `encrypt` and `decrypt`.
  - `key`: which key the database uses at start-up, and when a fresh one may
    be made.
  - `hex`: the hex text under which the key is kept in the credential store.
  - `icon` and `paths`: how an app's icon is found on Linux (desktop entries,
    icon themes, pixmaps), how icon files become RGBA pixels, and how Windows
    BGRA bitmaps become RGBA.
  - `search`: the searches for an app's `.desktop` file and an icon's file,
    one file-system probe at a time (what to probe next, and which hit wins).
  - `text`: splitting, trimming, searching and number parsing over characters.
- `app/` is the operating-system side: the credential store, the key file,
  the file system and environment, and the platform icon APIs.
- `tests/` runs the library on concrete values.
