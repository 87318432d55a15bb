# spider

A documentation crawler whose decisions are proved with Verus.

The crawler starts at one page, follows the links that stay on the start page's
domain and under its path (plus the assets those pages use), honours
robots.txt, refuses to connect to private and internal addresses, and stores
every page under an output directory.

## Layout

- `src/` is the verified library. Every decision of the crawler is a function
  here with a contract:
  - `weburl`: URLs as plain values, with parsing and joining done by the `url`
    crate.
  - `paths`: sub-paths of the crawl root, asset files, the visited-set key of a
    URL, and where a page is stored.
  - `robots`: where robots.txt lives and what it allows (`robotstxt` crate).
  - `extract` and `scan`: the URLs an HTML page or a style sheet refers to
    (`scraper` and `regex` crates).
  - `page`: what is stored for a fetched page and which links it yields.
  - `frontier` and `keyset`: the crawl queue, the visited set and the worker
    count, as a state machine driven by the program.
  - `netguard`: filtering resolved addresses against private ranges (`ipnet`).
  - `text` and `split`: small text helpers.
- `app/main.rs` is the program around it: command line, HTTP, DNS, files and
  worker tasks. It performs what the library decides.
- `tests/` runs the library on concrete pages, URLs and addresses.
