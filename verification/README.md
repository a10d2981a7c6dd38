# rhizolog

The logic of Rhizolog, a markdown wiki with a derived SQLite index, a time log
and Idea Inbox, written in Verus. The library's own functions in `src/` carry
contracts that Verus proves, and the properties that span functions are stated
as proof functions beside them; the few wrappers around chrono and std (listed
under Trust) carry contracts that are believed, not proved.

## Layout

- `src/` — the verified library.
  - `index/` — what the index decides: the link graph, a page's neighbourhood
    (`neighbours`) and which of its pages and lines a view draws (`drawing`),
    the dashboard's figures and rankings (`graph`, `ranking`), page and
    time-entry listings (`pages`, `times`), Idea Inbox's rows (`ideas`) and
    how its decisions fold into the state an idea is in (`fold`), pins and
    sessions, word counts, and how a scan of the files on disk is reconciled
    with what the index holds (`sync`).
  - `ideas/` — Idea Inbox itself: ids, records and their frontmatter, the
    lifecycle of an idea, the eligibility of capture suggestions, adopting the
    open user's records, and the store's and service's rules.
  - `frontmatter`, `calendar`, `text`, `sorted`, `paths`, `words`, `markdown` —
    the pieces those are built from.
- `tests/` — scenarios run against the compiled library.
- `app/` — the program around it: the SQLite queries, file reading and
  writing, YAML, and the floating-point similarity scoring, all of which hand
  plain rows to the library and take its answers back.

## Trust

The library calls outside code only through a handful of wrappers whose
contracts are believed rather than proved: chrono's reading and spelling of
compact timestamps, std's character classes and lower-casing, and std's path
handling (joining, splitting into components, displaying). Each says in its doc
comment what it claims.
