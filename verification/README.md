# cargo-vet

The part of cargo-vet that decides: which audit criteria the packages of a
workspace have to meet, whether the audits, exemptions and imports of a store
show that they do, what to audit where they do not, and which entries of the
store are still needed.

The library in `src/` is verified with Verus. Every function states what it
returns, and the laws that span functions are proof functions whose names start
with `law_`.

| Modules | What they are about |
| --- | --- |
| `records`, `version`, `criteria`, `sorted_map`, `text`, `order` | the data and how it is ordered |
| `package_graph`, `packages`, `policy`, `dev_features`, `requirements` | the packages, their policies and what is asked of them |
| `edges`, `directed`, `audit_graph`, `search` | the audits of a package as a graph, and the search in it |
| `resolve`, `print`, `json` | the analysis of a workspace and its reports |
| `delta`, `suggest` | what to audit next |
| `required`, `retain`, `update` | which entries are needed, and bringing the store up to date |
| `implications`, `demands`, `entries`, `healing`, `keys`, `preserve`, `success` | laws |

What is not proved is what other crates do. `package_graph` hands on what `guppy`
says of the package graph, `version` and `records` have `semver` read versions and
ask it whether one is in a range, and `print` has `console` measure texts; each of
these calls is a small function that says what it relies on.

`app/` joins the library with terminals, JSON and the network.
