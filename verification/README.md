# rio_isomorphism

Decides whether two RDF datasets are isomorphic: equal up to a one-to-one
renaming of their blank nodes.

- `src/model.rs`: IRIs, blank nodes, literals, quads, and datasets (sets of
  quads), with their mathematical views.
- `src/order.rs`: lexicographic orders on byte strings and on sequences of
  byte strings, and sorted duplicate-free vectors of keys.
- `src/permutation.rs`: sorting positions, and lexicographic enumeration of
  orderings through the `permutohedron` crate.
- `src/isomorphism.rs`: the definition of isomorphism, the hashing of blank
  nodes by their surroundings, the search for a renaming, and
  `are_datasets_isomorphic`, whose result is proved to be exactly whether the
  datasets are isomorphic. The file also proves that isomorphism is
  reflexive, symmetric and transitive, and preserves the number of quads.
- `src/properties.rs`: laws of the notions the check is built from: the
  blank nodes of a union or a renaming of datasets, the hash of a blank node
  as a function of its signature, the monotonicity of containment, and the
  independence of the search from the order of hashes and of group members.
