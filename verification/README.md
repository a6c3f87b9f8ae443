# web-radar

Inbound and outbound domain links from Common Crawl's domain-level web
graphs (`*-domain-vertices.txt`, `*-domain-edges.txt`, `*-domain-ranks.txt`),
with the parsing, indexing, lookup and streaming logic written in Verus and
checked against its contracts.

Two ways to work:

* `web-radar index build` once, then `web-radar query example.com` answers
  in milliseconds from the index files;
* `web-radar run` streams all three files for the domains in `config.toml`
  and needs no index.

## Layout

* `src/`: the library, every function with a contract proved by Verus.
  * `lines`, `chunks`, `text`, `binary`, `order`, `seen`: bytes, lines,
    batches of whole lines, characters, little-endian fields, sorting and
    hash collections.
  * `reverse`, `config`, `path`, `data_source`, `cli`: domain names in
    reverse notation, the configuration, paths and where the graph files
    come from.
  * `vertices`, `edges`, `inbound`, `ranks`, `index`: the four index tiers
    and their metadata (`vertices.idx`, `edges.idx`, `inbound.off` /
    `inbound.src`, `ranks.bin`, `index.json`), with the steps that assemble
    the inbound and ranks files bucket by bucket and what a lookup reads
    back of them.
  * `query`: one domain's answer over whatever tiers are built.
  * `scan`: the streaming run that needs no index: its passes, and the
    step that decides which file is read next.
  * `desktop`, `audit`, `seo`, `jobs`, `meta`: the desktop window's config,
    the manual page audit (each page as a series of steps driven by the
    network's answers), search-based discovery, the one running job, and
    product strings.
* `app/`: the command line: argument parsing, files, memory maps, gzip,
  progress bars, and the floating-point rank values and their order. It
  reads and writes the files; what to write, and when to stop reading,
  comes from the library.

What is proved and what is taken on trust: the contracts of the library
functions are proved; the calls into `memchr`, `ahash`, `rayon` and a few
standard-library functions are declared with contracts that are believed,
each stated next to its call in `src/`. The file handling in `app/` is
ordinary Rust.
* `tests/`: the library's tests.
