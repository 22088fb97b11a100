# parsec

A PARSEC node handle and its blocks, verified with Verus.

- `src/` is the verified library:
  - `error`: errors and the status codes of the C interface;
  - `id_set`: sets of public ids (`BTreeSet`) and their increasing listing;
  - `bytes`: byte-string equality and copies;
  - `block`: votes and blocks (payload plus proofs);
  - `order`: the order in which network events become stable blocks, decided
    from complete rounds of numbered votes, with the lemmas that make it grow
    only at its end;
  - `node`: the node handle (voting, gossip, polling) and the laws over it,
    among them agreement: of any two members of one group, the blocks one has
    handed out are a prefix of the other's.
- `app/` is the C interface: raw pointers in and out, status codes.
- `tests/` drive nodes through simulated networks and check concrete cases.
