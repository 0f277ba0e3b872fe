//! Three-way merge engine for git conflicts: line splitting, conflict-marker
//! parsing, the hunk builder that classifies changes against the merge base,
//! and the document model handed to the merge editor.

pub mod model;
pub mod text;
pub mod diff;
pub mod merge3;
pub mod conflict;
pub mod document;
pub mod git;
pub mod cli;
