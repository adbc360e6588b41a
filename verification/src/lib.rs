//! Reconciles target directory trees with one source tree by symbolic links.
//!
//! The library works on in-memory snapshots of directory trees. It prunes a
//! source snapshot by exclusion rules, removes what the targets already link
//! to, routes what is left through ordered link maps and reports what stays
//! pending once the routed links have been attempted.

pub mod collect_nodes;
pub mod configuration;
pub mod document;
pub mod filter;
pub mod filter_source_nodes;
pub mod filter_target_nodes;
pub mod idempotence;
pub mod link;
pub mod match_link_maps;
pub mod node;
pub mod order;
pub mod reconcile;
pub mod report;
pub mod text;
