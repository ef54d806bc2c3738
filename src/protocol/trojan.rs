//! Trojan links: `trojan://password@server:port?type=&sni=&allowInsecure=#name`.
use vstd::prelude::*;
use crate::protocol::link::after_prefix;
use crate::protocol::link::authority;
use crate::protocol::link::has_prefix;
use crate::protocol::link::link_name;
use crate::protocol::link::name_of_link;
use crate::protocol::link::opt_str;
use crate::protocol::link::opt_view;
use crate::protocol::link::parse_query;
use crate::protocol::link::query_get;
use crate::protocol::link::query_value;
use crate::protocol::link::split_authority;
use crate::protocol::link::starts_with;
use crate::protocol::link::cut_first;
use crate::protocol::UnsupportedLinkError;
use crate::text::chars_of;
use crate::text::eq_chars;
use crate::text::parse_u16;
use crate::text::parse_u16_chars;
use crate::text::split_first;
use crate::text::split_last;
use crate::text::split_last_at;
use crate::text::string_of;

verus! {

/// A Trojan node.
#[derive(Debug, Clone)]
pub struct Trojan {
    pub name: String,
    pub server: String,
    pub port: u16,
    pub password: String,
    pub sni: Option<String>,
    pub skip_cert_verify: Option<bool>,
    pub network: Option<String>,
}

pub struct TrojanView {
    pub name: Seq<char>,
    pub server: Seq<char>,
    pub port: u16,
    pub password: Seq<char>,
    pub sni: Option<Seq<char>>,
    pub skip_cert_verify: Option<bool>,
    pub network: Option<Seq<char>>,
}

impl View for Trojan {
    type V = TrojanView;

    open spec fn view(&self) -> TrojanView {
        TrojanView {
            name: self.name@,
            server: self.server@,
            port: self.port,
            password: self.password@,
            sni: opt_str(self.sni),
            skip_cert_verify: self.skip_cert_verify,
            network: opt_str(self.network),
        }
    }
}

/// The node that a `trojan://` link describes; the name follows the last `#`.
pub open spec fn trojan_decode(link: Seq<char>) -> Option<TrojanView> {
    if !has_prefix(link, "trojan://"@) {
        None
    } else {
        let body = after_prefix(link, "trojan://"@);
        let url = match split_last(body, '#') {
            Some(p) => p.0,
            None => body,
        };
        let frag = match split_last(body, '#') {
            Some(p) => Some(p.1),
            None => None,
        };
        let main = match split_first(url, '?') {
            Some(p) => p.0,
            None => url,
        };
        let q = match split_first(url, '?') {
            Some(p) => Some(p.1),
            None => None,
        };
        let get = |k: Seq<char>|
            match q {
                Some(x) => query_get(x, k),
                None => None,
            };
        match split_last(main, '@') {
            None => None,
            Some(up) => match authority(up.1) {
                None => None,
                Some(hp) => match parse_u16(hp.1) {
                    None => None,
                    Some(port) => Some(
                        TrojanView {
                            name: link_name(frag, hp.0, port),
                            server: hp.0,
                            port,
                            password: up.0,
                            sni: get("sni"@),
                            skip_cert_verify: match get("allowInsecure"@) {
                                Some(v) => Some(v == "1"@),
                                None => None,
                            },
                            network: get("type"@),
                        },
                    ),
                },
            },
        }
    }
}

fn opt_string(o: Option<Vec<char>>) -> (r: Option<String>)
    ensures
        opt_str(r) == opt_view(o),
{
    match o {
        Some(v) => Some(string_of(&v)),
        None => None,
    }
}

impl Trojan {
    /// Reads a `trojan://` link.
    pub fn from_link(link: String) -> (r: Result<Trojan, UnsupportedLinkError>)
        ensures
            match r {
                Ok(v) => trojan_decode(link@) == Some(v@),
                Err(_) => trojan_decode(link@) is None,
            },
    {
        let chars = chars_of(link.as_str());
        let body = match starts_with(&chars, "trojan://") {
            Some(b) => b,
            None => return Err(UnsupportedLinkError::new("not a trojan link: ", &chars)),
        };
        let (url, frag) = match split_last_at(&body, '#') {
            Some((u, f)) => (u, Some(f)),
            None => {
                let (u, f) = cut_first(&body, '#');
                (u, f)
            },
        };
        let (main, q) = cut_first(&url, '?');
        let (network, sni, skip_cert_verify) = match &q {
            Some(x) => {
                let entries = parse_query(x);
                let skip = match query_value(&entries, "allowInsecure") {
                    Some(v) => Some(eq_chars(&v, &chars_of("1"))),
                    None => None,
                };
                (
                    opt_string(query_value(&entries, "type")),
                    opt_string(query_value(&entries, "sni")),
                    skip,
                )
            },
            None => (None, None, None),
        };
        let (password, hostport) = match split_last_at(&main, '@') {
            Some(p) => p,
            None => return Err(UnsupportedLinkError::new("trojan link without '@': ", &chars)),
        };
        let (server, port_text) = match split_authority(&hostport) {
            Some(p) => p,
            None => return Err(UnsupportedLinkError::new("trojan link without port: ", &chars)),
        };
        let port = match parse_u16_chars(&port_text) {
            Some(p) => p,
            None => return Err(UnsupportedLinkError::new("trojan link with a bad port: ", &chars)),
        };
        let name = name_of_link(&frag, &server, port);
        Ok(
            Trojan {
                name: string_of(&name),
                server: string_of(&server),
                port,
                password: string_of(&password),
                sni,
                skip_cert_verify,
                network,
            },
        )
    }
}

} // verus!
