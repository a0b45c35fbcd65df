//! Runtime configuration of the engine's surroundings.

use vstd::prelude::*;

verus! {

/// Where the cache lives and which port the RPC frontend listens on. The
/// frontend fills this in from its environment.
pub struct Config {
    pub redis_url: String,
    pub grpc_port: u16,
}

} // verus!
