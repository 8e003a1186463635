//! The turn-taking logic of an agent.

pub mod attachment;
pub mod closing;
pub mod episode;
pub mod inbound;
pub mod memory_context;
pub mod messages;
pub mod model_change;
pub mod predicates;
pub mod registry;
pub mod skill_commands;
pub mod summary;
pub mod tool_access;
pub mod tool_loop;
pub mod turn;
