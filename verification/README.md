# post_prove

Generates proofs that stored labels are still held. A challenge makes some labels good: those whose
encryption falls below a difficulty. A proof is a nonce together with the packed indexes of enough
labels that are good for it.

- `src/` is the library. Every function in it is verified with Verus, up to the calls into `aes`,
  `blake3`, `bytemuck` and `primitive-types`, whose contracts stand beside the functions that make
  them (`cipher.rs`, `params.rs`).
- `tests/` runs the library with those crates.
- `app/` scans the labels on a thread pool and writes proofs down. Reading the labels and their
  description, RandomX and the CUDA device are left to its caller, behind a trait.

Where to look:

| module | what it holds |
| --- | --- |
| `prover` | the scan of a batch of labels, and how a prover is made |
| `scan` | what a scan finds, as a whole |
| `batches` | the pieces that the labels are read in |
| `sink` | where good labels go |
| `hit_log` | the good labels of a pass, and how they compare with another list |
| `prove` | proofs, and the passes that lead to one |
| `compression` | packing indexes |
| `params`, `difficulty` | thresholds |
| `cipher`, `nonce`, `pow` | keys, nonce groups and what they are paid for with |
| `bytes` | byte strings as numbers |
| `config`, `metadata` | settings and the description of the stored labels |
