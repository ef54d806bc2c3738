//! Hysteria (version 1) nodes; they come from configuration documents only.
use vstd::prelude::*;
use crate::protocol::hysteria2::opt_strings;
use crate::protocol::link::opt_str;

verus! {

/// A Hysteria node, addressed by a port or by a port range.
#[derive(Debug, Clone)]
pub struct Hysteria {
    pub name: String,
    pub server: String,
    pub port: Option<u16>,
    pub ports: Option<String>,
    pub protocol: Option<String>,
    pub obs_protocol: Option<String>,
    pub up: Option<String>,
    pub up_speed: Option<String>,
    pub down: Option<String>,
    pub down_speed: Option<String>,
    pub auth: Option<String>,
    pub auth_str: Option<String>,
    pub obfs: Option<String>,
    pub sni: Option<String>,
    pub skip_cert_verify: Option<bool>,
    pub fingerprint: Option<String>,
    pub alpn: Option<Vec<String>>,
    pub receive_windows_conn: Option<bool>,
    pub receive_windows: Option<bool>,
    pub disable_mtu_discovery: Option<bool>,
    pub fast_open: Option<bool>,
    pub hop_interval: Option<u16>,
}

pub struct HysteriaView {
    pub name: Seq<char>,
    pub server: Seq<char>,
    pub port: Option<u16>,
    pub ports: Option<Seq<char>>,
    pub protocol: Option<Seq<char>>,
    pub obs_protocol: Option<Seq<char>>,
    pub up: Option<Seq<char>>,
    pub up_speed: Option<Seq<char>>,
    pub down: Option<Seq<char>>,
    pub down_speed: Option<Seq<char>>,
    pub auth: Option<Seq<char>>,
    pub auth_str: Option<Seq<char>>,
    pub obfs: Option<Seq<char>>,
    pub sni: Option<Seq<char>>,
    pub skip_cert_verify: Option<bool>,
    pub fingerprint: Option<Seq<char>>,
    pub alpn: Option<Seq<Seq<char>>>,
    pub receive_windows_conn: Option<bool>,
    pub receive_windows: Option<bool>,
    pub disable_mtu_discovery: Option<bool>,
    pub fast_open: Option<bool>,
    pub hop_interval: Option<u16>,
}

impl View for Hysteria {
    type V = HysteriaView;

    open spec fn view(&self) -> HysteriaView {
        HysteriaView {
            name: self.name@,
            server: self.server@,
            port: self.port,
            ports: opt_str(self.ports),
            protocol: opt_str(self.protocol),
            obs_protocol: opt_str(self.obs_protocol),
            up: opt_str(self.up),
            up_speed: opt_str(self.up_speed),
            down: opt_str(self.down),
            down_speed: opt_str(self.down_speed),
            auth: opt_str(self.auth),
            auth_str: opt_str(self.auth_str),
            obfs: opt_str(self.obfs),
            sni: opt_str(self.sni),
            skip_cert_verify: self.skip_cert_verify,
            fingerprint: opt_str(self.fingerprint),
            alpn: opt_strings(self.alpn),
            receive_windows_conn: self.receive_windows_conn,
            receive_windows: self.receive_windows,
            disable_mtu_discovery: self.disable_mtu_discovery,
            fast_open: self.fast_open,
            hop_interval: self.hop_interval,
        }
    }
}

/// Two Hysteria nodes are one node when they share the server and the port, or, where
/// neither has a port, the port range.
pub open spec fn same_hysteria(a: HysteriaView, b: HysteriaView) -> bool {
    a.server == b.server && if a.port is Some || b.port is Some {
        a.port == b.port
    } else {
        a.ports == b.ports
    }
}

fn same_opt_string(a: &Option<String>, b: &Option<String>) -> (r: bool)
    ensures
        r == (opt_str(*a) == opt_str(*b)),
{
    match (a, b) {
        (Some(x), Some(y)) => x.eq(y),
        (None, None) => true,
        _ => false,
    }
}

impl Hysteria {
    pub fn same_node(&self, other: &Hysteria) -> (r: bool)
        ensures
            r == same_hysteria(self@, other@),
    {
        if self.server != other.server {
            return false;
        }
        if self.port.is_some() || other.port.is_some() {
            match (self.port, other.port) {
                (Some(a), Some(b)) => a == b,
                _ => false,
            }
        } else {
            same_opt_string(&self.ports, &other.ports)
        }
    }
}

impl PartialEq for Hysteria {
    fn eq(&self, other: &Hysteria) -> (r: bool) {
        self.same_node(other)
    }
}

impl vstd::std_specs::cmp::PartialEqSpecImpl for Hysteria {
    open spec fn obeys_eq_spec() -> bool {
        true
    }

    open spec fn eq_spec(&self, other: &Hysteria) -> bool {
        same_hysteria(self@, other@)
    }
}

} // verus!
