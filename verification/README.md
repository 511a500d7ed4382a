# Zooid Lake

The rules of Zooid Lake, an underwater game of creatures built from parts joined
at sockets, written in Verus and proved against their contracts.

## Layout

- `src/` — the verified library:
  - `assets.rs`: identifiers of shared meshes, collider shapes, materials and sounds.
  - `parts.rs`: part kinds, socket kinds, and their constant metadata.
  - `graph.rs`: the joint graph of parts and its traversal, with its soundness and
    completeness, which parts are close enough to a heart to live, and why connecting and
    disconnecting keep every creature a tree.
  - `creature.rs`: power and depth levels, depth layers, control input and game states.
  - `blueprint.rs`: joints saved by part and socket index, and how they resolve to sockets.
  - `npc.rs`: growing random non-player creatures, part by part, then adding hearts.
  - `connect.rs`: connecting and disconnecting sockets, and how a creature splits.
  - `building.rs`: building mode decisions.
  - `session.rs`: saving sessions, their names and their storage text.
  - `reactions.rs`: the newest reactions a part shows to events of its creature.
- `tests/` — tests of the library on concrete values.
- `app/` — the game around the library: the engine, physics, rendering, sound,
  input and file or browser storage.
