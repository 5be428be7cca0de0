# checksum

Several implementations of the RFC 1071 Internet checksum (the ones-complement
sum of the 16-bit big-endian words of a buffer, without the final complement),
each proved with Verus to return `internet_sum(data@)`.

- `src/model.rs`: the mathematical model (word sums, end-around-carry fold).
- `src/lemmas.rs`: ones-complement arithmetic facts used by the proofs.
- `src/laws.rs`: laws of the checksum (byte-order independence, incremental
  and commutative summation).
- `src/fold.rs`: carry folding and end-around-carry addition.
- `src/bytes.rs`: big-endian and native-endian word reads.
- `src/lanes.rs`: four-lane vector arithmetic through the `wide` crate.
- `src/variants.rs`: the checksum implementations.
- `app/main.rs`: a timing program comparing the implementations.
