//! What a model is told about its surroundings.
pub mod agents;
pub mod builder;
pub mod skills;
pub mod stdin;

pub use agents::{discover_agents, discover_agents_for_targets, AgentsFile};
pub use builder::{build_system_prompt, ContextInput};
pub use skills::{discover_skills, parse_skill_metadata, skill_roots, SkillMetadata};
pub use stdin::bound_stdin;
