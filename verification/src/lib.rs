pub mod context;
pub mod errors;
pub mod executor;
pub mod expirable;
pub mod laws;
pub mod names;
pub mod orchestrator;
pub mod pipeline;
pub mod preprocessor;
pub mod project_path;
pub mod shader;
