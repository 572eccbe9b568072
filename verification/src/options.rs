//! The proxy's configuration surface: listen address, listen port and
//! verbosity, with their defaults.

use vstd::prelude::*;

verus! {

/// Runtime options of the proxy.
pub struct RToption {
    pub listen_addr: String,
    pub listen_port: u16,
    pub verbose: i32,
}

impl Default for RToption {
    /// The default configuration: listen on every interface, port 8080,
    /// quiet.
    fn default() -> (r: RToption)
        ensures
            r.listen_addr@ == "0.0.0.0"@,
            r.listen_port == 8080,
            r.verbose == 0,
    {
        RToption { listen_addr: "0.0.0.0".to_owned(), listen_port: 8080, verbose: 0 }
    }
}

} // verus!
