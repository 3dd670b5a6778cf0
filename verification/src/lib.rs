//! Decision logic of an agent that talks to user-supplied model providers.
//!
//! Outbound requests are kept within byte limits, long conversations are summarized without
//! losing what was asked, provider errors are classified, and skills and tool servers are
//! picked by where they come from.

pub mod agent;
pub mod api_error;
pub mod auto_compaction;
pub mod bounded_result;
pub mod commit;
pub mod json;
pub mod json_unique;
pub mod mcp_auth;
pub mod mcp_startup;
pub mod message;
pub mod plan;
pub mod recovery;
pub mod request_budget;
pub mod skill;
pub mod state;
pub mod text;
pub mod text_layout;
