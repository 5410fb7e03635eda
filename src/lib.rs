//! Kernel configuration tracing and vulnerability verdicts.
pub mod text;
pub mod reader;
pub mod matcher;
pub mod paths;
pub mod tracer;
pub mod error;
pub mod config;
pub mod vex;
pub mod order;
pub mod json;
pub mod advisory;
pub mod pipeline;

pub use config::DotConfig;
pub use error::KcfgVexError;
pub use json::JsonValue;
pub use tracer::{trace_kernel_config, SourceTree, TraceEdge, TraceResult};
pub use vex::{build_vex, derive_vex_state, CycloneDxVex, VexEntry};
