//! The state and the rules behind a set of editor windows.

pub mod changes;
pub mod changes_laws;
pub mod commit;
pub mod commit_laws;
pub mod display;
pub mod idea_agent;
pub mod idea_git;
pub mod idea_git_laws;
pub mod idea_search;
pub mod idea_search_laws;
pub mod list_laws;
pub mod listing;
pub mod outline;
pub mod outline_laws;
pub mod placement_laws;
pub mod plus_git;
pub mod plus_git_laws;
pub mod preview;
pub mod row_text;
pub mod runs;
pub mod staging;
pub mod staging_laws;
pub mod text;
pub mod tree;
pub mod tree_laws;
pub mod windows;
