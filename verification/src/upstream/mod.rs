//! Upstream servers: finding their address and keeping connections to them.

pub mod bootstrap;
pub mod pipeline;
pub mod place_laws;
pub mod pool;
pub mod pool_laws;
pub mod sharing;
pub mod step_laws;
