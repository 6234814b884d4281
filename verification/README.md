# groth16_params

The parameters of a Groth16 proving system: their binary format, read from a
stream or a mapped file, written, indexed in place, and handed to a prover.
`src/` is written in Verus and verified; `app/` does the I/O around it.

- `engine`: curve points and pairing engines, seen through the uncompressed
  encodings of the points.
- `bls12`: the BLS12-381 engine, on top of the `bls12_381` and `group` crates.
- `wire`, `points`: big-endian words, points and lists of points.
- `format`: what a sequence of bytes stands for, as a specification.
- `verifying_key`, `params`: the verifying key and the parameters.
- `reader`, `writer`: reading and writing parameters piece by piece.
- `mapped`: where the points lie in a mapped file.
- `laws`: what holds of the format as a whole, such as that reading gives back
  what was written.
