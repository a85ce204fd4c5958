# rustfs_erasure_codec

A Reed-Solomon erasure codec over GF(2^8), written in Verus: every function of
the library carries a contract that Verus proves.

## What the library does

- `ReedSolomon` (`src/codec/`): the classic codec. `data_shard_count` data
  shards and `parity_shard_count` parity shards; the encoding matrix is a
  Vandermonde, Cauchy, Jerasure-style or user matrix, or the sum of the data
  shards for a single parity shard asked to be fast. Every matrix that
  `with_options` builds loses nothing: any `data_shard_count` shards give the
  data back (`is_mds_code`).
  - `encode`, `encode_sep`, `encode_single*`, `update`, `verify*`;
  - `reconstruct`, `reconstruct_data`, `reconstruct_some`, `reconstruct_opt*`
    with a prepared workspace, `reconstruct_slots` for any container of the
    `ReconstructShard` trait (`Option<Vec<u8>>`, `(Vec<u8>, bool)`,
    `ShardSlot`), and `decode_idx` for decoding in batches;
  - `split` and `join` between a buffer and its data shards.
- `galois_8` and `galois_16`: field arithmetic, with the field laws proved.
- `codec::parallel`: the parallel policy, which decides how many jobs and how
  long a chunk; a non-zero L2 size bounds a chunk so that a job's working set
  fits in it.
- `codec::leopard*`: the building blocks of the Leopard FFT codec families
  (butterflies, transforms, the IFFT plans). The Leopard encoder and decoder
  are not part of the library, so `with_options` refuses a Leopard family
  with `UnsupportedCodecFamily` once its shard checks pass.
- Slice multiplication always runs scalar code; there is no SIMD backend.
- Decode matrices are computed afresh on each call; the inversion-cache
  options are accepted and change no result.

## The laws

Beside the contracts, `src/` proves laws such as: reconstruction gives back
what was encoded (`lemma_reconstruct_recovers` and its partial, slot and
workspace forms), the decode matrix is unique, the Jerasure-style matrix is
exactly its definition and unique, updating parity keeps an encoding, `join`
undoes `split`, and decoding in batches gives what one call gives.

## Layout

- `src/`: the verified library.
- `tests/`: its tests.
- `app/`: ordinary Rust around it: settings from the environment, CPU and
  cache detection, and parallel execution of encoding, verification and
  reconstruction on threads, chunk by chunk as the policy decides.
