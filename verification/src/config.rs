use vstd::prelude::*;
use vstd::string::StringExecFns;

verus! {

/// Server configuration: where the transport binds and how many clients it
/// admits. The transport itself lives outside the simulation core.
pub struct MazeWarsServerPlugin {
    pub bind_addr: String,
    pub max_clients: usize,
}

impl Default for MazeWarsServerPlugin {
    fn default() -> (s: Self)
        ensures
            s.bind_addr@ == "0.0.0.0:5000"@,
            s.max_clients == 32,
    {
        MazeWarsServerPlugin { bind_addr: String::from_str("0.0.0.0:5000"), max_clients: 32 }
    }
}

/// The admission cap, kept alongside the running server.
pub struct MaxClients(pub usize);

} // verus!
