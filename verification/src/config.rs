//! Where a client finds its server.

use vstd::prelude::*;

verus! {

/// The addresses of the server's two transports, each as `host:port`.
#[derive(Debug)]
pub struct Config {
    pub server_tcp_addr: String,
    pub server_udp_addr: String,
}

impl Default for Config {
    /// A server on this machine, at the ports it listens on by default.
    fn default() -> (config: Config)
        ensures
            config.server_tcp_addr@ == "127.0.0.1:8080"@,
            config.server_udp_addr@ == "127.0.0.1:8081"@,
    {
        Config {
            server_tcp_addr: "127.0.0.1:8080".to_owned(),
            server_udp_addr: "127.0.0.1:8081".to_owned(),
        }
    }
}

} // verus!
