# camp_ranger

Correlation of Software Bills of Materials (CycloneDX SBOMs) fetched from a
Trusted Profile Analyzer service or read from a directory, and comparison of
the resulting component hierarchies with the service's own analysis.

The library under `src/` is written in Verus; its functions carry
contracts that Verus proves, except four small trusted wrappers around
outside code (`String::push`, `urlencoding::encode` and `decode`, and
chrono's current time), whose contracts are taken as given.

The maps and sets of the program (the correlation's SBOMs by serial
number, the reference graph and its mirror, the dependency map of an SBOM,
the groups of hierarchies by root name, the serial numbers a walk has
visited) are keyed by strings. With `String` keys, vstd's specification
of `HashMap` and `HashSet` gave too little to prove even that one insert
makes a map of length one, so the library holds each of them as a `Vec`
searched from the front, with its invariant stated (no key twice, a later
entry replacing an earlier one) and its order fixed where the program's
output depended on the order a hash map was walked in.

- `text`: character sequences, searching, joining, sorting, decimals.
- `purl`: package URLs: SHA-256 digests, matching by digest, name and version.
- `sbom`: the SBOM documents as the library reads them.
- `graph`: which SBOM refers to which, and the rank of each SBOM.
- `correlation`: the ranked SBOMs and the queries over them (by rank, CPE,
  package URL; depth-first walks down and up the references).
- `hierarchy`: the JSON-shaped hierarchy built from a walk.
- `json`, `compare`, `comparison`: flattening two hierarchy documents and
  comparing them node by node.
- `report`: the Markdown report, the CSV rows and the console summary.
- `api`: the service's configuration, answers, endpoint addresses and file
  names.
- `listing`: what the console listing of a hierarchy shows.

`app/` holds the command-line program: argument parsing, logging, HTTP
requests, files, and the serde forms of the library's types.
