# Wallflower

A quiet reader for Medium articles served through Freedium proxies, with a
local cache, history, favorites, full-text search and Markdown export.

## Layout

- `src/` is the verified library (Verus). Every function carries a contract
  over a mathematical model of its inputs and result:
  - `config`: the reader's settings and the rules a configuration must meet;
  - `medium`: which URLs count as Medium articles;
  - `json`, `freedium`: decoding Freedium's devalue-encoded `__data.json`
    payload into an article, rewriting host-relative image references and
    removing `script`, `style` and `noscript` elements;
  - `render`: the plain text indexed for search and the Markdown used for
    export;
  - `search`: the FTS5 query built from what the user types;
  - `export`: export file names and the exported document;
  - `workflow`: the proxy URL, the order in which endpoints are tried and the
    error reported when all fail, and the steps of serving an article from
    the cache or the proxies;
  - `text`: character-sequence primitives shared by the modules above.
- `app/` is the program around the library: the configuration file, the
  HTTP client, the SQLite store and the commands.
- `tests/` runs the library on concrete inputs.

Calls into `url`, `scraper`, `urlencoding`, `serde_json` and a few `std` functions stand
behind small trusted wrappers whose doc comments say what their contracts
claim.
