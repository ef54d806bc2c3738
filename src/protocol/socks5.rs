//! SOCKS5 nodes; they come from configuration documents only.
use vstd::prelude::*;

verus! {

/// A SOCKS5 node.
#[derive(Debug, Clone)]
pub struct Socks5 {
    pub name: String,
    pub server: String,
    pub port: u16,
    pub username: Option<String>,
    pub password: Option<String>,
    pub tls: Option<bool>,
    pub udp: Option<bool>,
    pub skip_cert_verify: Option<bool>,
    pub fingerprint: Option<String>,
}

impl PartialEq for Socks5 {
    fn eq(&self, other: &Socks5) -> (r: bool) {
        self.server == other.server && self.port == other.port
    }
}

impl vstd::std_specs::cmp::PartialEqSpecImpl for Socks5 {
    open spec fn obeys_eq_spec() -> bool {
        true
    }

    open spec fn eq_spec(&self, other: &Socks5) -> bool {
        self.server@ == other.server@ && self.port == other.port
    }
}

} // verus!
