//! Co-membership graphs over a roster of players, with component and
//! closeness analysis.
//!
//! A roster is a list of records, each a player and a team. Its graph has a
//! node for every player and an edge for every two players of one team.
//! `create_graph` builds it, `find_connected_components` counts the groups
//! of players that are connected through shared teams, and
//! `compute_closeness_centrality` scores every player by the distances to
//! the players within reach.

pub mod analysis;
pub mod builder;
pub mod grouping;
pub mod laws;
pub mod network;
pub mod paths;
pub mod roster;
pub mod team_graph;
pub mod teammates;

pub use crate::analysis::{compute_closeness_centrality, find_connected_components, Closeness};
pub use crate::builder::{create_graph, try_create_graph};
pub use crate::roster::Player;
pub use crate::team_graph::TeamGraph;
