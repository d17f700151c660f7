# schattenweg_core

The verified core of Schattenweg, an on-device walking router for Berlin that
steers around mapped surveillance cameras.

* `src/` is the library, verified with Verus: the OpenStreetMap tag rules
  (walkability, camera class and record, searchable places), assembly of the
  walkable network from the two passes over an extract, the graph adjacency
  and path reconstruction, the offline place index and its ranked search, and
  the on-disk cache format with its round-trip laws. Coordinates, lengths and
  exposure fractions are carried as binary64 bit patterns; the library does no
  floating-point arithmetic.
* `app/` is the `Router` object the UI holds through UniFFI: reading the
  `.osm.pbf` extract and the cache file, the spherical geometry, the exposure
  sampling and the A* search, all of which are floating point or I/O.
* `tests/` exercises the library on concrete values.
