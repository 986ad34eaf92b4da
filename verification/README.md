# flea backend core

The verified core of a file manager's backend, in Verus.

`src/` is the library. Every function in it is verified except three small trusted wrappers
of std: `char::to_lowercase` and `str::to_lowercase` (`fuzzy.rs`) and `String::push`
(`text.rs`), whose contracts are believed. Its modules:

- `text`, `table`: character helpers with std's meaning (lines, trimming, whitespace) and a
  small string table.
- `aliases`, `icons`, `kind`: the shared MIME database's alias table, generic-icons table and
  per-type comments, with the fallbacks that give every row a real icon name.
- `fuzzy`, `order`, `sort`, `listing`, `search`, `searchreq`: fuzzy scoring, the listing's name
  order and the rank order (both proved total), order-preserving permutation sorts, and the
  sliced subtree walk behind a search request. `search::lemma_walk_rows`, `lemma_walked_stops`,
  `lemma_walked_reads` and `lemma_may_read` let callers connect a search's walk state to the
  listing it fills and unfold what a step did.
- `metasort`, `scan`: the size and date orders, and the first, stat-free phase of a listing.
- `dirsizereq`: the directory-size queue and its one-at-a-time walker.
- `linecount`: the bounded line count.
- `md5`: MD5 for thumbnail cache names, the digest written out as spec functions.
- `archivespec`, `convert`, `owner`, `testdir`: archive listing lines, the ImageMagick argv,
  passwd lookups, and the test sandbox's paths and removal guard.

Where the backend reads the disk or the clock, the library takes what was read as an
argument, or a reader closure, and `app/` does the reading.

`tests/` holds the tests; `app/` is the ordinary Rust around the library.
