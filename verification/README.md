# kube-dns-rs

A Kubernetes-aware DNS server. It serves A/AAAA records for Services and
EndpointSlices under the cluster domain and for `DnsRecord` custom resources,
answers NXDOMAIN for names on downloaded block lists (allow lists win ties),
and resolves everything else upstream over DNS-over-TLS.

The decisions of the server are a library verified with Verus; the server
program around it is ordinary Rust.

## Layout

- `src/` — the verified library.
  - `trie.rs`: the label trie (insert, get, get_mut, closest-prefix walk),
    modelled as a map from label paths to optional values.
  - `blocker/`: which entries cover a name — the name itself and every name
    under it — (`cover.rs`), the block/allow list store and its lookup (`context.rs`), the
    "any allow wins" variant (`domains.rs`), the blocking decision
    (`handler.rs`), and list parsing and the refresh retry policy
    (`refresher.rs`).
  - `kubernetes/svc/`: services and endpoint slices (`context.rs`), the
    answer of the cluster-domain zone (`handler.rs`), and what watch events
    do to the context (`watcher.rs`).
  - `kubernetes/crd/`: `DnsRecord` resources (`context.rs`), the answer of
    their zone (`handler.rs`), and watch events (`watcher.rs`).
  - `keyed.rs`: string-keyed entries in insertion order; `text.rs`: trimming
    and prefixes; `names.rs`: domain-name parsing by hickory, handed over as
    labels; `utils.rs`: combining the lookups of one request.
- `tests/` — tests of the library.
- `app/` — the server: configuration, sockets, hickory zone handlers, the
  Kubernetes watchers and the HTTP downloads, all calling the library for
  their decisions.
