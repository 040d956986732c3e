# reveal_lib

The decisions behind Reveal, a photo catalogue and darkroom, as a Verus
library: what a story note's frontmatter holds and how edits to it read
back, how Apple Photos assets are addressed, which cache entries a cleanup
removes and which renders a prune keeps, where an export lands, how a
thumbnail request is read and answered and how a thumbnail is turned, what
a culling run keeps and tells the user, how a story is published photo by
photo, and the text formats the application reads and writes.

- `src/` — the verified library. Each public function's contract says what
  it returns; where an outside crate computes part of it (a decoded image's
  size, an encoded JPEG), the contract says what that crate documents and no
  more. The laws that relate several functions are public proof
  functions (`law_*`). Calls into std's path handling, hashing, UTF-8
  decoding, and into the `image` and `kamadak-exif` crates, stand behind
  small trusted functions whose contracts say what those functions are
  documented to do.
- `tests/` — the library run on concrete values.
- `app/` — the file-system side: reading and writing notes and caches,
  executing the plans the library makes, and the serde shapes the webview
  exchanges.

Verify with Verus on `src/lib.rs`.
