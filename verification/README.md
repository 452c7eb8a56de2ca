# activity-metrics-collector

Collects repository activity metrics of a software catalog (git history and
forge APIs) and writes them to the `analysis` field of the
software-catalog-api.

The decisions and data handling are a Verus library under `src/`, each
function proved against its contract:

- `gitcache`: the compact per-repository history summary, its binary
  codec (`codec`, with the round-trip laws), the metrics derived from it
  (`derive`), the cache path (`paths`) and building, merging and
  refreshing it from `git log` output (`refresh`).
- `forge`: forge kinds, host classification, rate-limit rules, and the
  GitHub (`github`), GitLab (`gitlab`) and Gitea/Forgejo (`gitea`)
  requests and answers.
- `catalog`: catalog API addresses, paging, the root catalog and the rule
  that keeps stored forge values when a forge call fails.
- `collect`, `runner`, `metrics`, `aggregate`: what each software gets,
  the grouping by catalog, the `activity` namespaces and the per-catalog
  statistics.
- `json`, `namemap`, `daymap`, `text`, `dates`: the plain data the rest
  works on.

`app/` is the program around it: flags and environment, HTTP, git
processes, files, JSON serialisation and the floating-point mean and
median of the statistics.
