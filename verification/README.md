# bin_pack_wasm

Three-dimensional bin packing, after Dube & Kanavathy (2006), "Optimizing
Three-Dimensional Bin Packing Through Simulation", with its core verified
in Verus.

## Layout

- `src/` — the verified library, generic in the scalar type `T` of lengths.
  - `entity/` — items, containers, rotations and axes, and `Algo::pack`, the
    greedy packer: kinds are ordered by volume, each copy of an item goes to
    the first open container that takes it, else to a fresh container of
    the first kind that has one left and takes it, else it stays unpacked.
    The arithmetic on lengths is passed in as four functions (`smaller`,
    `exceeds`, `collides`, `pivot`); the contracts state what the packer
    does with whatever they answer. The kinds are sorted stably. A trace
    of the packing (`entity/trace.rs`) records, copy by copy, where each
    copy of each kind went: every copy lands in exactly one container or
    among the unpacked items, in order, so each kind is accounted for; it
    went to the first open container that did not reject it, else to a
    fresh container of the first kind with one left that did not reject
    it, else it stayed unpacked. Container quantities are used up exactly;
    every placed item was found inside its container and clear of the
    items before it, and lies where the packer puts it: in the first
    rotation found inside, at the origin of an empty container, else at the
    first corner next to an earlier item (along X, then Y, then Z) that did
    not refuse it.
  - `packing/` — the data of the layer-building heuristic: items, containers,
    the six orientations of a container, the expansion of item kinds into
    single items, and first-fit packing into bins.
  - `algo/` — a heuristic over bins that packs nothing yet.
- `app/` — the `f64` arithmetic (volumes, collisions, pivots, bounds), the
  JSON front end `msg`, the `json_minimal` reader, the EB-AFIT layer
  heuristic, and a runner over a file of test cases.
- `tests/` — tests of the library, including the packing scenario with the
  `f64` arithmetic.
