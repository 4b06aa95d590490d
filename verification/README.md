# blockguard

A small proof-of-work blockchain as a verified library: transactions signed
with secp256k1, an account state committed to by a root hash, blocks
committed to by a Merkle root and a header hash, difficulty retargeting along
each branch, fork choice by cumulative work, a transaction pool, the peer
protocol's framing and the storage format of a node. Every function in
`src/` carries a contract. Verus proves them all except those of the small
wrappers around the outside crates (`sha2` for hashing, `k256` for keys and
signatures, `primitive-types` for 512-bit arithmetic): each of those only
makes its call, and its contract, which restates what that crate's source
shows, is trusted.

Among the proved properties: a block is accepted exactly when it is a valid
child of an indexed block, and a refused block changes nothing; the
canonical tip always carries the most cumulative work; the next target
depends only on the branch below it; a state root depends only on the
account map; pool candidates do not depend on admission order, those for
a smaller count are the first of those for a larger one, and (where no
executable transaction fails to apply on the way) each is the lowest-id
transaction executable at its turn; after revalidation against a new state
the pool keeps, per sender, a gap-free run of nonces that applies in order,
and what it dropped would be refused again;
a transaction signed with a key pair verifies under that key; every wire
message and every stored node reads back as what was written (for storage,
the same configuration and the same block tree with the same tip), and
bytes that are not a stored node are refused with the first refusal the
storage format names.

Layout:

- `src/` the library (`types`, `bytes`, `encoding`, `hash`, `keys`, `wide`,
  `pow`, `state`, `fork`, `genesis`, `chain`, `mempool`, `network`,
  `storage`, `node`, `messages`).
- `tests/` tests of the library.
- `app/` the I/O around it: files, sockets, threads.
