# colony

The simulation core of a voxel colony game, verified with Verus.

- `src/block`: the voxel world: blocks, chunk buffers and their grid shapes, the terrain,
  the light queue, the view slice, and the meshing of a chunk into faces.
- `src/colonists`: the colonists' minds and movement: behavior trees and the brain that
  switches actions, jobs and where they can be worked from, job scoring, falling, items,
  animations, and the navigation graph of partitions, regions and navigation groups
  with reachability and route following.
- `app/`: the game-engine side (bevy resources, components and systems) that feeds the
  library plain values and carries out what it decides.
- `tests/`: tests of the library on concrete values.

Finding routes (A* over partitions and cells) is not part of these sources: the library
decides, step by step, when a route or the cells of a leg are needed and what to do with
them, and `app/movement.rs` takes the route finder as an argument. Drawing and the
engine's floating-point transforms stay with the engine.
