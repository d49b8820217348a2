//! Browsing git-annex repositories.
pub mod annex;
pub mod app;
pub mod cache;
pub mod files;
pub mod layout;
pub mod load;
pub mod logs;
pub mod moves;
pub mod node;
pub mod order;
pub mod paths;
pub mod profile;
pub mod reading;
pub mod report;
pub mod rows;
pub mod secrets;
pub mod shown;
pub mod snapshot;
pub mod table;
pub mod tally;
pub mod text;
pub mod tree;
pub mod trust;
pub mod ui;
pub mod usage;
pub mod usage_nodes;
pub mod util;
pub mod visual;
pub mod worker;
