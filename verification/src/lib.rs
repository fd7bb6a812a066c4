//! The decision logic of a worktree manager: resolving agent names to
//! worktrees, re-laying out a window around its sidebar, and deleting
//! quarantined worktrees. Everything here works on plain values; the driver
//! performs the commands and file operations that this crate asks for.

pub mod agent_groups;
pub mod agent_pane;
pub mod agent_resolve;
pub mod agent_selector;
pub mod cleanup_retry;
pub mod cleanup_tree;
pub mod deletion_laws;
pub mod failures;
pub mod fs_path;
pub mod json_record;
pub mod layout_laws;
pub mod pending_cleanup;
pub mod resolution_laws;
pub mod sidebar_layout;
pub mod text;
pub mod tree_model;
pub mod worktree_root;
