//! Research provenance core: diagnostics, budgets, access labels and report parsing.
pub mod text;
pub mod finding;
pub mod execution;
pub mod findings;
pub mod content_observations;
pub mod model;
pub mod access;
pub mod report_json;
pub mod content;
pub mod project;
pub mod navigation;
pub mod init;
pub mod report_binding;
pub mod claim;
pub mod graph;
pub mod json;
pub mod index;
pub mod semantics;
pub mod cycles;
pub mod indexing;
pub mod project_access;
pub mod project_navigation;
pub mod scan;
