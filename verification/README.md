# kube-node-dns

`kube-node-dns` works out DNS records for the globally reachable IP addresses of
the nodes of a Kubernetes cluster. On each node it finds the addresses on the
network interfaces and writes them to an annotation of the node. In the cluster
it watches the nodes and works out, for each domain, the records of all nodes
that are ready, not cordoned, and have an address. The library also says which
records of a hosted zone those stand in place of. The program logs the records;
it does not write them to Route 53.

The decisions are a library that is verified with Verus. The program around it
moves data: arguments, network interfaces, the Kubernetes API and Route 53. It
also reads coordinates as floating-point numbers, and hands an interval whose
parts add up to exactly the first duration that does not fit, on which
`humantime` panics, to `humantime` itself.

| Where | What |
| --- | --- |
| `src/text.rs`, `src/numeral.rs` | splitting and joining text, numbers as text |
| `src/address.rs`, `src/address_laws.rs` | IP addresses, their texts and their order |
| `src/reach.rs`, `src/node_ips.rs` | which addresses are globally reachable, and lists of them |
| `src/name_map.rs`, `src/node.rs` | a map by name, and a node with its annotations and conditions |
| `src/coordinates.rs`, `src/node_state.rs` | where a node is, and what its records are made of |
| `src/annotate.rs`, `src/interval.rs`, `src/command.rs` | updating annotations, once or at an interval |
| `src/hosted_zone.rs` | which hosted zone a domain belongs to |
| `src/publisher.rs`, `src/publish_loop.rs`, `src/records.rs` | following the nodes, and their records |
| `src/error.rs` | what can go wrong, in words |
| `app/` | the program |
| `tests/` | the library on concrete values |

The contracts state what each function returns for every input. What holds
between functions is stated by the public proof functions beside them: for
instance that the addresses written to a node are those its records are made
of, or that no change to a node is left unpublished once the watch is current.

The library rests on a few claims about code that is not verified here, each
stated where the call is made: `ip_rfc::global`, `joinery`'s `join_with`,
`humantime::parse_duration`, and `String::push` and the `Debug` of strings in the
standard library.
