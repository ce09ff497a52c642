//! Deterministic core of a multi-agent grid world: the world-state value type,
//! the level parser, and the team reward aggregator.

pub mod parsing;
pub mod reward;
pub mod world;

pub use parsing::{parse, ParseError, Tile};
pub use reward::{AgentId, RewardEvent, TeamReward};
pub use world::{Position, WorldState};
