//! Movement and pathing core for a tile-based exploration game.
//!
//! The crate models tile walkability as a grid keyed by integer coordinates,
//! answers point-to-point movement requests with a verified best-first graph
//! search, and advances entities along computed paths one waypoint per tick.
//!
//! Everything here is plain data and algorithms: the surrounding engine owns
//! rendering, input, task scheduling and networking, and talks to this crate
//! through integer coordinates, waypoint lists and small request/answer
//! values.

pub mod coords;
pub mod follower;
pub mod grid;
pub mod protocol;
pub mod search;
