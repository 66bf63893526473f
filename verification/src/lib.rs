//! A shared-folder message board for conversations that work side by side.

pub mod app;
pub mod clock;
pub mod collections;
pub mod command_laws;
pub mod conversation_laws;
pub mod delivery_laws;
pub mod error;
pub mod expiry_laws;
pub mod foundation_laws;
pub mod frame;
pub mod laws;
pub mod mcp;
pub mod model;
pub mod path;
pub mod record_laws;
pub mod route_laws;
pub mod routed;
pub mod routed_laws;
pub mod scan_laws;
pub mod storage;
pub mod text;
pub mod ulids;
pub mod walk;
pub mod walk_laws;
