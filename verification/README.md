# The Awesome Ledger

A daily discovery feed over the GitHub "awesome" lists: the job fetches
every enrolled list's README, diffs it at entry level (by canonical URL,
not by text), records additions and removals as events, and renders a
static site (front page, per-list pages, monthly archives, RSS feeds)
plus a daily digest for a memory service.

## Layout

- `src/` — the library, verified with Verus: every decision of the job
  and of the site is a function with a contract.
  - `text`, `sort`, `date` — character sequences, a stable keyed sort,
    calendar dates (chrono formats them).
  - `parse`, `norm` — README markdown to entries (pulldown-cmark
    tokenizes), canonical URL keys (the `url` crate parses).
  - `registry`, `roster`, `store`, `model` — enrollment pins and
    blocklist, the enrolled lists in key order, snapshots, the state.
  - `update` — enrollment, one list's fetch outcome, the diff, the end of
    a run, `Run` (a whole run, step by step, whose results are those of
    the run's model at every step), and the laws that tie them together.
  - `view`, `feed`, `render` — the page models, the RSS feeds.
  - `digest`, `fetch`, `publish` — the digest chunk and its queue, the
    fetcher's decisions (statuses, back-off, when to retry), the git steps
    of a publish.
- `app/` — the program around it: command line, state directory, HTTP,
  git, HTML templates.
- `tests/` — tests of the library on concrete values.
