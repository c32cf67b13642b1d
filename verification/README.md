# readingcomics

The core of a desktop comic reader for CBZ/CBR files that also tells which
issues of a series are missing, written in Verus: every function of the
library carries a contract, and the contracts are proved.

## Layout

- `src/` — the verified library.
  - `text.rs`: characters, whitespace, decimal numbers, substrings.
  - `natural.rs`: natural order of names (`page2` before `page10`) and a
    stable sort by it.
  - `archive.rs`: archive formats from their first bytes, page lists, which
    entry holds a page or the ComicInfo.xml, error messages of the rar reader.
  - `comicinfo.rs`: reading ComicInfo.xml, issue numbers, guessing series and
    number from a file name.
  - `commands.rs`: folder listings confined to the library root, the data of a
    comic and of a folder, thumbnails and data URIs.
  - `series.rs`: which series a folder holds, the issues owned and the gaps.
  - `config.rs`: settings and reading progress.
  - `metron.rs`: queries for the Metron database, ranking of its answers and
    explanations of its failures.
- `tests/` — tests of the library on concrete values.
- `app/` — what touches the outside world: the file system, the archives, the
  thumbnail cache, the settings files, the HTTP requests and the system
  keyring. It hands the library plain values and takes plain values back.

The library's laws are its public `lemma_*` proof functions.
