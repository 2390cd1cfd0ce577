# geo_hash

Geohash encoding and decoding with Verus proofs.

A geohash names a cell of a grid laid over the map of the world. This crate works on
that grid in integers: a position is a `GridPoint` whose latitude and longitude are the
leading 32 bits of their fraction of the coordinate range, and a hash of `n` characters
spells the leading `5n` bits of the two coordinates interleaved (longitude first), five
bits per base32 character.

Layout:

- `src/bits.rs`: spreading, interleaving and squashing of bit words.
- `src/codec.rs`: the base32 alphabet, `GeoHash`, `Codec`, encoding of grid points and
  decoding of hashes into `GridBbox` cells.
- `src/grid.rs`: grid points and cells, and the conversions between IEEE-754 bit
  patterns and grid coordinates.
- `src/direction.rs`: the eight compass directions and their steps.
- `src/laws.rs`: proofs that decoding undoes encoding and back, that a point lies in
  the cell of its hash and every point of a cell encodes back to its hash, that hashes
  grow by extension, that the cell of a longer hash
  lies inside the cell of its prefix, and that two points share a hash prefix exactly
  when they share a cell.
- `app/lib.rs`: everything that computes with `f64` (coordinates, bounding boxes in
  degrees, neighbours, `ldexp`) and the serde interface.
