//! Verified core of a desktop tool-hub: a service manager that brokers access
//! to external tool-providing processes, plus the pure compute halves of the
//! surrounding system utilities (port listing, process inspection, package
//! management).

pub mod text;
pub mod ports;
pub mod process;
pub mod runner;
pub mod brew;
pub mod hnsw;
pub mod launcher;
pub mod mcp_error;
pub mod mcp_models;
pub mod mcp_json;
pub mod mcp_manager;
pub mod mcp_bridge;
pub mod mcp_facade;
pub mod mcp_laws;
