//! ShadowsocksR links: `ssr://base64(server:port:protocol:cipher:obfs:base64(password)/?remarks=..)`.
use vstd::prelude::*;
use crate::base64::decode_or_raw;
use crate::base64::decoded_or_raw;
use crate::protocol::hysteria2::main_and_query;
use crate::protocol::link::after_prefix;
use crate::protocol::link::has_prefix;
use crate::protocol::link::opt_str;
use crate::protocol::link::opt_view;
use crate::protocol::link::parse_query;
use crate::protocol::link::query_get;
use crate::protocol::link::query_value;
use crate::protocol::link::starts_with;
use crate::protocol::UnsupportedLinkError;
use crate::text::chars_of;
use crate::text::dec;
use crate::text::dec_chars;
use crate::text::parse_u16;
use crate::text::parse_u16_chars;
use crate::text::push_all;
use crate::text::slice_chars;
use crate::text::split_all;
use crate::text::split_all_at;
use crate::text::split_first_at;
use crate::text::string_of;
use crate::text::views;

verus! {

/// A ShadowsocksR node.
#[derive(Debug, Clone)]
pub struct Ssr {
    pub name: String,
    pub server: String,
    pub port: u16,
    pub password: String,
    pub cipher: String,
    pub obfs: String,
    pub obfs_param: Option<String>,
    pub protocol: String,
    pub protocol_param: Option<String>,
}

pub struct SsrView {
    pub name: Seq<char>,
    pub server: Seq<char>,
    pub port: u16,
    pub password: Seq<char>,
    pub cipher: Seq<char>,
    pub obfs: Seq<char>,
    pub obfs_param: Option<Seq<char>>,
    pub protocol: Seq<char>,
    pub protocol_param: Option<Seq<char>>,
}

impl View for Ssr {
    type V = SsrView;

    open spec fn view(&self) -> SsrView {
        SsrView {
            name: self.name@,
            server: self.server@,
            port: self.port,
            password: self.password@,
            cipher: self.cipher@,
            obfs: self.obfs@,
            obfs_param: opt_str(self.obfs_param),
            protocol: self.protocol@,
            protocol_param: opt_str(self.protocol_param),
        }
    }
}

/// A query value of an SSR link, itself base64 (read as it stands where it is not).
pub open spec fn ssr_param(q: Seq<char>, key: Seq<char>) -> Option<Seq<char>> {
    match query_get(q, key) {
        Some(v) => Some(decoded_or_raw(v)),
        None => None,
    }
}

/// The node that an `ssr://` link describes.
pub open spec fn ssr_decode(link: Seq<char>) -> Option<SsrView> {
    if !has_prefix(link, "ssr://"@) {
        None
    } else {
        let text = decoded_or_raw(after_prefix(link, "ssr://"@));
        let main = main_and_query(text).0;
        let q = main_and_query(text).1;
        let fields = split_all(main, ':');
        if fields.len() < 6 {
            None
        } else {
            match parse_u16(fields[1]) {
                None => None,
                Some(port) => {
                    let remarks = match ssr_param(q, "remarks"@) {
                        Some(r) => r,
                        None => seq![],
                    };
                    Some(
                        SsrView {
                            name: if remarks.len() == 0 {
                                fields[0] + dec(port as nat)
                            } else {
                                remarks
                            },
                            server: fields[0],
                            port,
                            password: decoded_or_raw(fields[5]),
                            cipher: fields[3],
                            obfs: fields[4],
                            obfs_param: ssr_param(q, "obfsparam"@),
                            protocol: fields[2],
                            protocol_param: ssr_param(q, "protoparam"@),
                        },
                    )
                },
            }
        }
    }
}

fn param_value(entries: &Vec<(Vec<char>, Vec<char>)>, key: &str, q: Ghost<Seq<char>>) -> (r: Option<String>)
    requires
        crate::protocol::link::entry_views(entries@) == crate::protocol::link::query_entries(q@),
    ensures
        opt_str(r) == ssr_param(q@, key@),
{
    match query_value(entries, key) {
        Some(v) => Some(string_of(&decode_or_raw(&v))),
        None => None,
    }
}

impl Ssr {
    /// Reads an `ssr://` link.
    pub fn from_link(link: String) -> (r: Result<Ssr, UnsupportedLinkError>)
        ensures
            match r {
                Ok(v) => ssr_decode(link@) == Some(v@),
                Err(_) => ssr_decode(link@) is None,
            },
    {
        let chars = chars_of(link.as_str());
        let body = match starts_with(&chars, "ssr://") {
            Some(b) => b,
            None => return Err(UnsupportedLinkError::new("not a shadowsocksr link: ", &chars)),
        };
        let text = decode_or_raw(&body);
        let (main, q) = match split_first_at(&text, '?') {
            Some((m, q)) => {
                if m.len() > 0 && m[m.len() - 1] == '/' {
                    (slice_chars(&m, 0, m.len() - 1), q)
                } else {
                    (m, q)
                }
            },
            None => {
                assert(text@.subrange(0, text.len() as int) =~= text@);
                (slice_chars(&text, 0, text.len()), Vec::new())
            },
        };
        let fields = split_all_at(&main, ':');
        if fields.len() < 6 {
            return Err(UnsupportedLinkError::new("shadowsocksr link with missing fields: ", &chars));
        }
        let port = match parse_u16_chars(&fields[1]) {
            Some(p) => p,
            None => return Err(UnsupportedLinkError::new("shadowsocksr link with a bad port: ", &chars)),
        };
        let entries = parse_query(&q);
        let remarks = param_value(&entries, "remarks", Ghost(q@));
        let name = match remarks {
            Some(r) if !r.as_str().is_empty() => r,
            _ => {
                let mut n = slice_chars(&fields[0], 0, fields[0].len());
                assert(fields@[0]@.subrange(0, fields@[0]@.len() as int) =~= fields@[0]@);
                push_all(&mut n, &dec_chars(port as u64));
                string_of(&n)
            },
        };
        Ok(
            Ssr {
                name,
                server: string_of(&fields[0]),
                port,
                password: string_of(&decode_or_raw(&fields[5])),
                cipher: string_of(&fields[3]),
                obfs: string_of(&fields[4]),
                obfs_param: param_value(&entries, "obfsparam", Ghost(q@)),
                protocol: string_of(&fields[2]),
                protocol_param: param_value(&entries, "protoparam", Ghost(q@)),
            },
        )
    }
}

} // verus!
