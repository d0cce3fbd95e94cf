//! The server's configuration: the endpoint that the acceptor binds.
use vstd::prelude::*;

verus! {

/// A server that answers every request on every connection with the fixed
/// response.
pub struct ToyHttpServer<'a> {
    host: &'a str,
    port: u16,
}

impl<'a> ToyHttpServer<'a> {
    pub closed spec fn host_spec(&self) -> Seq<char> {
        self.host@
    }

    pub closed spec fn port_spec(&self) -> u16 {
        self.port
    }

    pub fn new(host: &'a str, port: u16) -> (r: Self)
        ensures
            r.host_spec() == host@,
            r.port_spec() == port,
    {
        ToyHttpServer { host: host, port: port }
    }

    /// The host that the server binds.
    pub fn host(&self) -> (r: &'a str)
        ensures
            r@ == self.host_spec(),
    {
        self.host
    }

    /// The port that the server binds.
    pub fn port(&self) -> (r: u16)
        ensures
            r == self.port_spec(),
    {
        self.port
    }
}

} // verus!
