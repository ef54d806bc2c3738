//! VLESS links: `vless://uuid@server:port?security=&sni=&flow=&fp=&type=&host=&path=#name`.
use vstd::prelude::*;
use crate::percent::decoded_or_same;
use crate::percent::url_decode_or_same;
use crate::protocol::hysteria2::main_and_query;
use crate::protocol::link::after_prefix;
use crate::protocol::link::authority;
use crate::protocol::link::cut_first;
use crate::protocol::link::has_prefix;
use crate::protocol::link::link_name;
use crate::protocol::link::name_of_link;
use crate::protocol::link::opt_str;
use crate::protocol::link::opt_view;
use crate::protocol::link::parse_query;
use crate::protocol::link::query_get;
use crate::protocol::link::query_value;
use crate::protocol::link::split_authority;
use crate::protocol::link::starts_with;
use crate::protocol::make_ws_options;
use crate::protocol::opt_grpc;
use crate::protocol::opt_ws;
use crate::protocol::ws_options;
use crate::protocol::GrpcOptions;
use crate::protocol::RealtyOptions;
use crate::protocol::UnsupportedLinkError;
use crate::protocol::WSOptions;
use crate::protocol::WSOptionsView;
use crate::text::chars_of;
use crate::text::eq_chars;
use crate::text::parse_u16;
use crate::text::parse_u16_chars;
use crate::text::slice_chars;
use crate::text::split_first;
use crate::text::split_first_at;
use crate::text::split_last;
use crate::text::split_last_at;
use crate::text::string_of;

verus! {

/// A VLESS node.
#[derive(Debug, Clone)]
pub struct Vless {
    pub name: String,
    pub server: String,
    pub port: u16,
    pub uuid: String,
    pub flow: Option<String>,
    pub tls: Option<bool>,
    pub udp: Option<bool>,
    pub skip_cert_verify: Option<bool>,
    pub fingerprint: Option<String>,
    pub servername: Option<String>,
    pub network: Option<String>,
    pub ws_opts: Option<WSOptions>,
    pub reality_opts: Option<RealtyOptions>,
    pub grpc_opts: Option<GrpcOptions>,
}

pub struct VlessView {
    pub name: Seq<char>,
    pub server: Seq<char>,
    pub port: u16,
    pub uuid: Seq<char>,
    pub flow: Option<Seq<char>>,
    pub tls: Option<bool>,
    pub udp: Option<bool>,
    pub skip_cert_verify: Option<bool>,
    pub fingerprint: Option<Seq<char>>,
    pub servername: Option<Seq<char>>,
    pub network: Option<Seq<char>>,
    pub ws_opts: Option<WSOptionsView>,
    pub has_reality_opts: bool,
    pub grpc_opts: Option<Option<Seq<char>>>,
}

impl View for Vless {
    type V = VlessView;

    open spec fn view(&self) -> VlessView {
        VlessView {
            name: self.name@,
            server: self.server@,
            port: self.port,
            uuid: self.uuid@,
            flow: opt_str(self.flow),
            tls: self.tls,
            udp: self.udp,
            skip_cert_verify: self.skip_cert_verify,
            fingerprint: opt_str(self.fingerprint),
            servername: opt_str(self.servername),
            network: opt_str(self.network),
            ws_opts: opt_ws(self.ws_opts),
            has_reality_opts: self.reality_opts is Some,
            grpc_opts: opt_grpc(self.grpc_opts),
        }
    }
}

/// The node that a `vless://` link describes.
pub open spec fn vless_decode(link: Seq<char>) -> Option<VlessView> {
    if !has_prefix(link, "vless://"@) {
        None
    } else {
        let body = after_prefix(link, "vless://"@);
        let pre = match split_first(body, '#') {
            Some(p) => p.0,
            None => body,
        };
        let frag = match split_first(body, '#') {
            Some(p) => Some(p.1),
            None => None,
        };
        let main = main_and_query(pre).0;
        let q = main_and_query(pre).1;
        let network = query_get(q, "type"@);
        match split_last(main, '@') {
            None => None,
            Some(up) => match authority(up.1) {
                None => None,
                Some(hp) => match parse_u16(hp.1) {
                    None => None,
                    Some(port) => Some(
                        VlessView {
                            name: link_name(frag, hp.0, port),
                            server: hp.0,
                            port,
                            uuid: up.0,
                            flow: query_get(q, "flow"@),
                            tls: Some(query_get(q, "security"@) == Some("tls"@)),
                            udp: Some(true),
                            skip_cert_verify: Some(true),
                            fingerprint: query_get(q, "fp"@),
                            servername: query_get(q, "sni"@),
                            network,
                            ws_opts: if network == Some("ws"@) {
                                Some(
                                    ws_options(
                                        match query_get(q, "path"@) {
                                            Some(p) => Some(decoded_or_same(p)),
                                            None => None,
                                        },
                                        query_get(q, "host"@),
                                    ),
                                )
                            } else {
                                None
                            },
                            has_reality_opts: false,
                            grpc_opts: None,
                        },
                    ),
                },
            },
        }
    }
}

fn opt_string(o: Option<Vec<char>>) -> (r: Option<String>)
    ensures
        opt_str(r) == opt_view(o),
{
    match o {
        Some(v) => Some(string_of(&v)),
        None => None,
    }
}

impl Vless {
    /// Reads a `vless://` link.
    pub fn from_link(link: String) -> (r: Result<Vless, UnsupportedLinkError>)
        ensures
            match r {
                Ok(v) => vless_decode(link@) == Some(v@),
                Err(_) => vless_decode(link@) is None,
            },
    {
        let chars = chars_of(link.as_str());
        let body = match starts_with(&chars, "vless://") {
            Some(b) => b,
            None => return Err(UnsupportedLinkError::new("not a vless link: ", &chars)),
        };
        let (pre, frag) = cut_first(&body, '#');
        let (main, q) = match split_first_at(&pre, '?') {
            Some((m, q)) => {
                if m.len() > 0 && m[m.len() - 1] == '/' {
                    (slice_chars(&m, 0, m.len() - 1), q)
                } else {
                    (m, q)
                }
            },
            None => {
                assert(pre@.subrange(0, pre.len() as int) =~= pre@);
                (slice_chars(&pre, 0, pre.len()), Vec::new())
            },
        };
        let entries = parse_query(&q);
        let network = query_value(&entries, "type");
        let is_ws = match &network {
            Some(n) => eq_chars(n, &chars_of("ws")),
            None => false,
        };
        let ws_opts = if is_ws {
            let path = match query_value(&entries, "path") {
                Some(p) => Some(url_decode_or_same(&p)),
                None => None,
            };
            Some(make_ws_options(path, query_value(&entries, "host")))
        } else {
            None
        };
        let tls = match query_value(&entries, "security") {
            Some(s) => eq_chars(&s, &chars_of("tls")),
            None => false,
        };
        let (uuid, hostport) = match split_last_at(&main, '@') {
            Some(p) => p,
            None => return Err(UnsupportedLinkError::new("vless link without '@': ", &chars)),
        };
        let (server, port_text) = match split_authority(&hostport) {
            Some(p) => p,
            None => return Err(UnsupportedLinkError::new("vless link without port: ", &chars)),
        };
        let port = match parse_u16_chars(&port_text) {
            Some(p) => p,
            None => return Err(UnsupportedLinkError::new("vless link with a bad port: ", &chars)),
        };
        let name = name_of_link(&frag, &server, port);
        Ok(
            Vless {
                name: string_of(&name),
                server: string_of(&server),
                port,
                uuid: string_of(&uuid),
                flow: opt_string(query_value(&entries, "flow")),
                tls: Some(tls),
                udp: Some(true),
                skip_cert_verify: Some(true),
                fingerprint: opt_string(query_value(&entries, "fp")),
                servername: opt_string(query_value(&entries, "sni")),
                network: opt_string(network),
                ws_opts,
                reality_opts: None,
                grpc_opts: None,
            },
        )
    }
}

} // verus!
