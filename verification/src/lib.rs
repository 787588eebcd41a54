//! Core of a static wiki builder: article metadata extraction, navigation
//! tree assembly, output path mapping, and output reconciliation.

pub mod paths;
pub mod text;
pub mod util;
pub mod meta;
pub mod sidebar;
pub mod tree;
pub mod config;
pub mod reconcile;
pub mod render;
