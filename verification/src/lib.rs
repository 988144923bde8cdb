//! Multi-agent workflows: flows of agent calls are read from JSON, checked, and run
//! against an agent that the caller reaches; with them, what starts the daemon that
//! serves a peer and what registers the tools of extensions.

pub mod text;
pub mod ordered;
pub mod json;
pub mod flow;
pub mod canonical;
pub mod normalize;
pub mod lowering_laws;
pub mod codec;
pub mod reading_laws;
pub mod refusal_laws;
pub mod references;
pub mod reference_laws;
pub mod parse;
pub mod executor;
pub mod guarantees;
pub mod run_laws;
pub mod workflow;
pub mod extension;
pub mod tool_laws;
pub mod os_text;
pub mod service;
pub mod service_laws;
pub mod view_laws;
