//! Game rules of Zooid Lake: creature parts and sockets, joint graphs,
//! creature blueprints, NPC generation, building and session bookkeeping.

pub mod assets;
pub mod parts;
pub mod graph;
pub mod creature;
pub mod blueprint;
pub mod npc;
pub mod connect;
pub mod building;
pub mod session;
pub mod reactions;
