//! Exhaustive route search over a lobby graph of waypoints and warps, with a
//! bounded collector that keeps the cheapest complete routes.

pub mod adapters;
pub mod builder;
pub mod cli;
pub mod collector;
pub mod costs;
pub mod error;
pub mod fork;
pub mod format;
pub mod graph;
pub mod index;
pub mod invariants;
pub mod json;
pub mod lobby;
pub mod names;
pub mod place;
pub mod render;
pub mod report;
pub mod search;
pub mod searcher;
pub mod template;
pub mod text;
pub mod timing;
pub mod tours;
