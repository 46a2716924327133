# teleology_core

The core of the Teleology grand-strategy engine, written in Verus: every public
function in `src/` carries a contract (`requires` / `ensures`) that Verus proves, and
Verus checks every function there, private helpers included.

## Layout

- `src/` — the verified library.
  - `world` — ids, province and nation stores, map layouts (square, hex, polygons),
    calendar and time configuration, the world builder.
  - `simulation` — the tick: advancing time, which schedule tiers are due.
  - `map_file` — province adjacency from square grids, hex grids and polygon edges.
  - `map_paint` — editor painting: brushes, flood fill, connected regions, tile
    colours, undo/redo history.
  - `archetypes`, `characters`, `character_gen`, `armies`, `population`, `economy` —
    game data and their registries.
  - `diplomacy` — relations matrix, wars, alliances, truces, opinion drift, war score.
  - `combat` (`stack`, `tile`, `deployment`) — battle detection and resolution for the
    combat models.
  - `tags`, `modifiers`, `progress_trees`, `events`, `event_bus`, `game_ui` — scripting
    support: tags, timed modifiers, unlock trees, event templates and queues, keyword
    matching, a publish/poll bus, UI prefabs.
  - `editor_utils` — resource browser classification and ordering, sizes, colours.
  - `raycast` — tile distances.
- Public proof functions named `law_*` state properties that hold across calls
  (e.g. what `undo` gives back after `record`, symmetry of adjacency and opinions).
- `tests/` — ordinary Rust tests against the library.
- `app/` — the host side: the Bevy ECS world and schedules, file formats (bincode and
  JSON through serde), file-system scans, and the gameplay formulas that compute with
  floating point.
