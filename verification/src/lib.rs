//! Timewars game mechanics: the authoritative, deterministic simulation engine
//! of the game server, the client's connection to it, and what the client
//! reads and computes in whole numbers: the text of mesh files and the
//! coefficients of its curves.
//!
//! All quantities are exact integers. Locations are cells of the world grid,
//! orientations and scales are counted in fixed units, and every ratio is kept
//! as a fraction.

pub mod math_fx;
pub mod mesh;
pub mod networking;
pub mod server;
