//! Route planning over a static star map extended with wormholes and jump bridges.
//!
//! The crate assembles a jump graph from a table of systems and from pasted
//! connection lists, removes jumps that lead from an allowed system into a
//! disallowed one, finds cheapest paths, and orders intermediate waypoints so
//! that the whole trip is as short as possible.

pub mod error;
pub mod filter;
pub mod ingest;
pub mod jumps;
pub mod names;
pub mod path;
pub mod route;
pub mod search;
pub mod security;
pub mod text;
pub mod universe;
pub mod validity;

pub use error::{ErrorView, RouteError};
pub use filter::filter_jumps;
pub use ingest::{
    load_ansiblexes, load_stargates, load_wormholes, try_parse_ansi_line, try_parse_wh_line,
};
pub use jumps::{Exit, Jump, JumpMap};
pub use names::{find_region_by_name, find_system_by_name};
pub use path::get_shortest_path;
pub use route::{choose_route, find_route, plan_route, Route, RoutePlan};
pub use search::{Hop, PENALTY};
pub use security::{Security, SystemSecurity};
pub use universe::{
    find_system_by_id, get_system_name, init_systems_by_name, Region, System, SystemId, Universe,
};
pub use validity::{PolicyOptions, SystemValidityChecker};
