# gitinspector-rs

Statistical analysis of git repositories: per-author commits, insertions and deletions,
file hotspots, activity timelines, line ownership from `git blame`, and a repository
health audit (stale branches, pull-request estimate, largest files).

## Layout

- `src/` is the analysis library, verified with Verus. Every public function states what it
  returns in its contract, over spec functions on sequences and strings:
  - `analysis`: the streaming `git log --numstat` parser (`CommitParser`), the batch
    parser built on it, and the incremental per-author / per-file aggregator;
  - `timeline`, `blame`, `health`, `metrics`: timelines, ownership, health and complexity;
  - `filtering`: typed exclusion rules over `regex`;
  - `repo`, `options`, `provider`: what `git`'s answers and the command-line options mean;
  - `formatters::text`: the plain-text report;
  - `strutil`, `textops`, `seqs`, `dates`, `paths`: text, sequence and calendar helpers;
  - `laws`, together with the `law_*` proof functions in `analysis`: what holds of every
    report (rankings are ordered and only reorder; per-author and per-file totals count
    exactly the commits and changes they stand for; parsed commits are well counted).
- `app/` is the command line: it runs `git`, feeds the library line by line and prints the
  report (JSON, XML, HTML and Markdown through `serde`, `quick-xml` and `askama`).
- `tests/` exercises the library on concrete inputs.
