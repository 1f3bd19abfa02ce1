# ratspeak_nomad

Rendering and request helpers for browsing NomadNet nodes: Micron pages are
turned into HTML fragments, fetched content is classified and answered as a
`nomad://` response, and form submissions are encoded as the msgpack payload
a node expects.

The library under `src/` is written in Verus, and every function in it
carries a contract over a mathematical model of what it computes:

- `text` — escaping and the character plumbing the rest builds on;
- `links` — link targets: script-bearing schemes blocked, cross-node forms
  rewritten to `nomad://`;
- `inline` — one line's inline markup (styles, colours, alignment, anchors,
  links);
- `refresh` — the decimal reading of a partial's refresh interval;
- `blocks` — dividers, headings, partials and tables;
- `micron` — the whole page, line by line;
- `fetch` — classifying fetched content and encoding form payloads;
- `browser` — responses and identity hashes;
- `laws`, `markup`, `lines` — properties proved of every input: escaping is
  inert and undone by unescaping, the HTML of any page holds no opening but
  the renderer's own, attribute values hold no quote of their own, pages
  compose line by line and `\r\n` line ends render as `\n` ones.

`app/` holds the networked side (fetching over Reticulum, answering requests
from the application state), which is plain Rust around the library.
