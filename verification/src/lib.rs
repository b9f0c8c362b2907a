//! A verified core for Lanelet2 maps: the routing graph and its searches, the
//! German traffic-rule tables, and the classification that decides how a map
//! primitive is drawn.

pub mod text;
pub mod relation;
pub mod graph;
pub mod paths;
pub mod accept;
pub mod registry;
pub mod traffic_rules;
pub mod strings;
pub mod style;
pub mod source;
pub mod summary;
pub mod attributes;
pub mod walks;
pub mod routing;
pub mod building;
pub mod route;
pub mod wire;
pub mod scene;
