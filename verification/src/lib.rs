//! Teleology: data-oriented engine core for grand strategy and 4X games.
//!
//! Provinces, nations and units live in dense stores; systems touch only what a tick
//! needs; tick granularity ranges from seconds to years; gameplay rules are data.
//! Every part of this library states its behaviour as a contract that is proved.

pub mod archetypes;
pub mod armies;
pub mod character_gen;
pub mod characters;
pub mod combat;
pub mod diplomacy;
pub mod economy;
pub mod editor_utils;
pub mod event_bus;
pub mod events;
pub mod game_ui;
pub mod map_file;
pub mod map_paint;
pub mod modifiers;
pub mod population;
pub mod progress_trees;
pub mod raycast;
pub mod simulation;
pub mod tags;
pub mod world;

pub use archetypes::{Nation, Province, ScopeEntity, Unit, TERRAIN_LAND, TERRAIN_SEA};
pub use armies::{new_army, Army, ArmyCommander, ArmyComposition, ArmyId, ArmyRegistry, ArmyStatus, UnitStack};
pub use character_gen::{CharacterGenConfig, CharacterGenerator, DefaultCharacterGenerator, GenContext};
pub use characters::{Character, CharacterRole, CharacterStats};
pub use combat::{BattleSide, CombatResult, CombatResultLog, UnitCategory, UnitTypeDef, UnitTypeId, UnitTypeRegistry};
pub use diplomacy::{Alliance, DiplomacyConfig, DiplomaticRelations, Relations, Truce, War, WarGoal, WarId, WarRegistry};
pub use events::{
    pull_next_event, queue_event, register_builtin_templates, ActiveEvent, EventChoice, EventDefinition, EventId,
    EventInstance, EventPopupStyle, EventQueue, EventRegistry, EventScope, EventTemplate, KeywordEntry,
    KeywordRegistry, PopupAnchor,
};
pub use economy::{GoodTypeDef, GoodTypeId, GoodsRegistry, ProvinceEconomy, TradeNetwork, TradeNode, TradeNodeId};
pub use event_bus::{
    publish_event, scope_types, EntityScopeRef, EventBus, EventEnvelope, EventPayload, EventScopeRef, EventTopicId,
};
pub use game_ui::{UiCommand, UiCommandBuffer, UiPrefab, UiPrefabRegistry};
pub use map_file::{compute_adjacency_from_hex, compute_adjacency_from_layout};
pub use modifiers::{
    ArmyModifiers, CharacterModifiers, Modifier, ModifierId, ModifierTypeId, ModifierValue, NationModifiers,
    ProvinceModifiers, ScopedModifiers,
};
pub use population::{PopGroup, ProvincePops};
pub use progress_trees::{
    NationProgress, NodeId, ProgressNode, ProgressState, ProgressTreeDefinition, ProgressTrees, ProvinceProgress,
    ScopedProgress, TreeId, TreeProgressState,
};
pub use raycast::{tile_distance_hex, tile_distance_square};
pub use simulation::{advance_time_in_place, TickRate};
pub use tags::{NationTags, ProvinceTags, ScopedTags, TagDef, TagId, TagRegistry, TagTypeDef, TagTypeId};
pub use world::{
    add_province_to_world, GameDate, GameTime, HexMapLayout, MapKind, MapLayout, NationId, NationStore,
    ProvinceAdjacency, ProvinceId, ProvincePolygon, ProvinceStore, ScopeId, TickUnit, TimeConfig, VectorMapLayout,
    WorldBounds, WorldBuilder,
};
