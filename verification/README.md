# Infinite Worlds

A planet generator: crust forms, plates drift, rift and weld, water, ice and wind wear the
land down, and a renderer shows it all as a globe or as a map.

The logic is a library verified with Verus. Floating point, the graphics driver, the disk and
threads are ordinary Rust around it.

## Layout

- `src/` is the library. Every function states what it returns or changes, and Verus proves it.
  - Plates: `graph`, `flood`, `plate`, `contact`, `topology`, `renumber`, `rift`, `boundary`,
    `drift`, `process`, `claims`, `advect`, `fields`, `partition`, `genesis`.
  - Surface: `heap`, `hydro`, `river`, `surface`.
  - Runs: `phase`, `sim`, `chronicle`, `worker`, `narrator`, `stream`, `retess`.
  - Files: `bytes`, `order`, `store`, `text`.
  - Pictures: `view`, `half`, `geometry`, `shell`, `closed`, `uploads`, `device`, `frame`.
  - Shared: `keys`, `sort`, `test_util`.
- `tests/` runs the library on concrete planets, files and frames.
- `app/` is what surrounds it: the camera, the tectonic and surface rates, Vulkan, the files
  and the worker thread.

## Numbers

The library has no floating point. A measured quantity enters it in one of three ways: as its
bit pattern, where it is only carried from place to place; as an order key (`keys`), where it
is compared; or as the outcome of a comparison, where it is held against a constant.

## Trust

What outside crates do is stated beside the calls and believed: the hash map of plate contacts
(`contact`), the short lists of claims (`claims`), compression (`store`), the first word of a
random stream (`stream`), and pushing a character (`text`).
