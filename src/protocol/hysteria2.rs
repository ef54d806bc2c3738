//! Hysteria2 links: `hysteria2://password@server:port/?insecure=&sni=&mport=...#name`.
use vstd::prelude::*;
use crate::percent::decoded_or_same;
use crate::percent::percent_decoded;
use crate::percent::percent_encoded;
use crate::protocol::ss::encoded_text;
use crate::percent::url_decode_or_same;
use crate::percent::url_encode;
use crate::protocol::link::after_prefix;
use crate::protocol::link::authority;
use crate::protocol::link::cut_first;
use crate::protocol::link::has_prefix;
use crate::protocol::link::link_name;
use crate::protocol::link::name_of_link;
use crate::protocol::link::opt_str;
use crate::protocol::link::opt_view;
use crate::protocol::link::parse_query;
use crate::protocol::link::query_get;
use crate::protocol::link::query_value;
use crate::protocol::link::split_authority;
use crate::protocol::link::starts_with;
use crate::protocol::link::write_authority;
use crate::protocol::link::Entry;
use crate::protocol::UnsupportedLinkError;
use crate::text::chars_of;
use crate::text::dec;
use crate::text::dec_chars;
use crate::text::lemma_no_char_concat;
use crate::text::no_char;
use crate::text::eq_chars;
use crate::text::has_char;
use crate::text::parse_u16;
use crate::text::parse_u16_chars;
use crate::text::push_all;
use crate::text::slice_chars;
use crate::text::split_all;
use crate::text::split_all_at;
use crate::text::split_first;
use crate::text::split_first_at;
use crate::text::split_last;
use crate::text::split_last_at;
use crate::text::string_of;
use crate::text::views;

verus! {

/// A Hysteria2 node.
#[derive(Debug, Clone)]
pub struct Hysteria2 {
    pub name: String,
    pub server: String,
    pub password: String,
    pub port: u16,
    pub ports: Option<String>,
    pub hop_interval: Option<u16>,
    pub up: Option<String>,
    pub down: Option<String>,
    pub obfs: Option<String>,
    pub obfs_password: Option<String>,
    pub sni: Option<String>,
    pub skip_cert_verify: Option<bool>,
    pub fingerprint: Option<String>,
    pub client_fingerprint: Option<String>,
    pub alpn: Option<Vec<String>>,
}

pub struct Hysteria2View {
    pub name: Seq<char>,
    pub server: Seq<char>,
    pub password: Seq<char>,
    pub port: u16,
    pub ports: Option<Seq<char>>,
    pub hop_interval: Option<u16>,
    pub up: Option<Seq<char>>,
    pub down: Option<Seq<char>>,
    pub obfs: Option<Seq<char>>,
    pub obfs_password: Option<Seq<char>>,
    pub sni: Option<Seq<char>>,
    pub skip_cert_verify: Option<bool>,
    pub fingerprint: Option<Seq<char>>,
    pub client_fingerprint: Option<Seq<char>>,
    pub alpn: Option<Seq<Seq<char>>>,
}

pub open spec fn strings_view(v: Seq<String>) -> Seq<Seq<char>> {
    v.map_values(|s: String| s@)
}

pub open spec fn opt_strings(o: Option<Vec<String>>) -> Option<Seq<Seq<char>>> {
    match o {
        Some(v) => Some(strings_view(v@)),
        None => None,
    }
}

impl View for Hysteria2 {
    type V = Hysteria2View;

    open spec fn view(&self) -> Hysteria2View {
        Hysteria2View {
            name: self.name@,
            server: self.server@,
            password: self.password@,
            port: self.port,
            ports: opt_str(self.ports),
            hop_interval: self.hop_interval,
            up: opt_str(self.up),
            down: opt_str(self.down),
            obfs: opt_str(self.obfs),
            obfs_password: opt_str(self.obfs_password),
            sni: opt_str(self.sni),
            skip_cert_verify: self.skip_cert_verify,
            fingerprint: opt_str(self.fingerprint),
            client_fingerprint: opt_str(self.client_fingerprint),
            alpn: opt_strings(self.alpn),
        }
    }
}

pub open spec fn opt_decoded(o: Option<Seq<char>>) -> Option<Seq<char>> {
    match o {
        Some(v) => Some(decoded_or_same(v)),
        None => None,
    }
}

/// The part of a link before its query (without a `/` that ends it) and the query.
pub open spec fn main_and_query(pre: Seq<char>) -> (Seq<char>, Seq<char>) {
    match split_first(pre, '?') {
        Some(p) => (
            if p.0.len() > 0 && p.0.last() == '/' {
                p.0.drop_last()
            } else {
                p.0
            },
            p.1,
        ),
        None => (pre, seq![]),
    }
}

/// Port and port range of the port text of an authority: a plain port, or a port
/// followed by `,` and a range.
pub open spec fn ports_of(text: Seq<char>) -> Option<(u16, Option<Seq<char>>)> {
    match parse_u16(text) {
        Some(p) => Some((p, None)),
        None => match split_first(text, ',') {
            None => None,
            Some(pr) => match parse_u16(pr.0) {
                None => None,
                Some(p) => Some((p, Some(pr.1))),
            },
        },
    }
}

/// The node of a link with fragment `frag`, server, password, port (and range) and query `q`.
pub open spec fn h2_view(
    frag: Option<Seq<char>>,
    server: Seq<char>,
    password: Seq<char>,
    pp: (u16, Option<Seq<char>>),
    q: Seq<char>,
) -> Hysteria2View {
    Hysteria2View {
        name: link_name(frag, server, pp.0),
        server,
        password,
        port: pp.0,
        ports: if pp.1 is Some {
            pp.1
        } else {
            query_get(q, "mport"@)
        },
        hop_interval: None,
        up: opt_decoded(query_get(q, "up"@)),
        down: opt_decoded(query_get(q, "down"@)),
        obfs: query_get(q, "obfs"@),
        obfs_password: query_get(q, "obfs-password"@),
        sni: opt_decoded(query_get(q, "sni"@)),
        skip_cert_verify: Some(query_get(q, "insecure"@) == Some("1"@)),
        fingerprint: None,
        client_fingerprint: Some("chrome"@),
        alpn: match query_get(q, "alpn"@) {
            Some(a) => Some(split_all(a, ',')),
            None => None,
        },
    }
}

/// The node that a `hysteria2://` link describes.
pub open spec fn hysteria2_decode(link: Seq<char>) -> Option<Hysteria2View> {
    if !has_prefix(link, "hysteria2://"@) {
        None
    } else {
        let body = after_prefix(link, "hysteria2://"@);
        let pre = match split_first(body, '#') {
            Some(p) => p.0,
            None => body,
        };
        let frag = match split_first(body, '#') {
            Some(p) => Some(p.1),
            None => None,
        };
        let main = main_and_query(pre).0;
        let q = main_and_query(pre).1;
        match split_last(main, '@') {
            None => None,
            Some(up) => match authority(up.1) {
                None => None,
                Some(hp) => match ports_of(hp.1) {
                    None => None,
                    Some(pp) => Some(h2_view(frag, hp.0, up.0, pp, q),
                    ),
                },
            },
        }
    }
}

/// The items joined by commas.
pub open spec fn join_commas(v: Seq<Seq<char>>) -> Seq<char>
    decreases v.len(),
{
    if v.len() == 0 {
        seq![]
    } else if v.len() == 1 {
        v[0]
    } else {
        v[0].push(',') + join_commas(v.drop_first())
    }
}

pub open spec fn opt_encoded(o: Option<Seq<char>>) -> Option<Seq<char>> {
    match o {
        Some(v) => Some(percent_encoded(v)),
        None => None,
    }
}

pub open spec fn alpn_text(a: Option<Seq<Seq<char>>>) -> Option<Seq<char>> {
    match a {
        Some(x) => Some(join_commas(x)),
        None => None,
    }
}

/// The optional query parameters that `to_link` writes, in order.
pub open spec fn h2_items(v: Hysteria2View) -> Seq<(Seq<char>, Option<Seq<char>>)> {
    seq![
        ("sni"@, opt_encoded(v.sni)),
        ("obfs"@, v.obfs),
        ("obfs-password"@, v.obfs_password),
        ("mport"@, v.ports),
        ("up"@, opt_encoded(v.up)),
        ("down"@, opt_encoded(v.down)),
        ("alpn"@, alpn_text(v.alpn)),
    ]
}

/// The parameters that have a value.
pub open spec fn present(items: Seq<(Seq<char>, Option<Seq<char>>)>) -> Seq<(Seq<char>, Seq<char>)>
    decreases items.len(),
{
    if items.len() == 0 {
        seq![]
    } else {
        let rest = present(items.drop_last());
        match items.last().1 {
            Some(x) => rest.push((items.last().0, x)),
            None => rest,
        }
    }
}

/// `&key=value` for one parameter, where it has a value.
pub open spec fn param_text(key: Seq<char>, v: Option<Seq<char>>) -> Seq<char> {
    match v {
        Some(x) => seq!['&'] + key.push('=') + x,
        None => seq![],
    }
}

/// `&key=value` for each pair.
pub open spec fn amp_pairs(p: Seq<(Seq<char>, Seq<char>)>) -> Seq<char>
    decreases p.len(),
{
    if p.len() == 0 {
        seq![]
    } else {
        amp_pairs(p.drop_last()) + seq!['&'] + p.last().0.push('=') + p.last().1
    }
}

/// The query that `to_link` writes.
pub open spec fn hysteria2_params(v: Hysteria2View) -> Seq<char> {
    "insecure="@ + (if v.skip_cert_verify == Some(true) {
        "1"@
    } else {
        "0"@
    }) + amp_pairs(present(h2_items(v)))
}

proof fn lemma_present_step(items: Seq<(Seq<char>, Option<Seq<char>>)>, j: int)
    requires
        0 <= j < items.len(),
    ensures
        amp_pairs(present(items.subrange(0, j + 1))) == amp_pairs(present(items.subrange(0, j)))
            + param_text(items[j].0, items[j].1),
{
    let s = items.subrange(0, j + 1);
    assert(s.drop_last() =~= items.subrange(0, j));
    assert(s.last() == items[j]);
    match items[j].1 {
        Some(x) => {
            let r = present(items.subrange(0, j));
            assert(r.push((items[j].0, x)).drop_last() =~= r);
            assert(amp_pairs(r.push((items[j].0, x))) =~= amp_pairs(r) + param_text(items[j].0, items[j].1));
        },
        None => {
            assert(amp_pairs(present(items.subrange(0, j))) + param_text(items[j].0, items[j].1)
                =~= amp_pairs(present(items.subrange(0, j))));
        },
    }
}

/// The link that `to_link` writes for a node.
pub open spec fn hysteria2_encode(v: Hysteria2View) -> Seq<char> {
    "hysteria2://"@ + v.password.push('@') + write_authority(v.server, v.port) + "/?"@
        + hysteria2_params(v) + seq!['#'] + percent_encoded(v.name)
}

/// Percent-encoding reads the value back and writes no separator.
pub open spec fn opt_encoded_reads_back(o: Option<Seq<char>>) -> bool {
    match o {
        Some(x) => percent_decoded(percent_encoded(x)) == Some(x) && encoded_text(percent_encoded(x)),
        None => true,
    }
}

fn read_main_and_query(pre: &Vec<char>) -> (r: (Vec<char>, Vec<char>))
    ensures
        (r.0@, r.1@) == main_and_query(pre@),
{
    match split_first_at(pre, '?') {
        Some((m, q)) => {
            if m.len() > 0 && m[m.len() - 1] == '/' {
                (slice_chars(&m, 0, m.len() - 1), q)
            } else {
                (m, q)
            }
        },
        None => {
            let r = slice_chars(pre, 0, pre.len());
            assert(pre@.subrange(0, pre.len() as int) =~= pre@);
            (r, Vec::new())
        },
    }
}

fn read_ports(text: &Vec<char>) -> (r: Option<(u16, Option<Vec<char>>)>)
    ensures
        match r {
            Some(p) => ports_of(text@) == Some((p.0, opt_view(p.1))),
            None => ports_of(text@) is None,
        },
{
    match parse_u16_chars(text) {
        Some(p) => Some((p, None)),
        None => match split_first_at(text, ',') {
            None => None,
            Some((a, b)) => match parse_u16_chars(&a) {
                None => None,
                Some(p) => Some((p, Some(b))),
            },
        },
    }
}

fn opt_string(o: Option<Vec<char>>) -> (r: Option<String>)
    ensures
        opt_str(r) == opt_view(o),
{
    match o {
        Some(v) => Some(string_of(&v)),
        None => None,
    }
}

fn opt_string_decoded(o: Option<Vec<char>>) -> (r: Option<String>)
    ensures
        opt_str(r) == opt_decoded(opt_view(o)),
{
    match o {
        Some(v) => Some(string_of(&url_decode_or_same(&v))),
        None => None,
    }
}

pub fn strings_of(v: &Vec<Vec<char>>) -> (r: Vec<String>)
    ensures
        strings_view(r@) == views(v@),
{
    let mut r: Vec<String> = Vec::new();
    let mut i: usize = 0;
    while i < v.len()
        invariant
            i <= v.len(),
            strings_view(r@) == views(v@).subrange(0, i as int),
        decreases v.len() - i,
    {
        let s = string_of(&v[i]);
        let ghost before = r@;
        r.push(s);
        assert(strings_view(r@) =~= strings_view(before).push(s@));
        i = i + 1;
        assert(strings_view(r@) =~= views(v@).subrange(0, i as int));
    }
    assert(views(v@).subrange(0, v.len() as int) =~= views(v@));
    r
}


pub open spec fn item_views(v: Seq<(Vec<char>, Option<Vec<char>>)>) -> Seq<
    (Seq<char>, Option<Seq<char>>),
> {
    v.map_values(|p: (Vec<char>, Option<Vec<char>>)| (p.0@, opt_view(p.1)))
}

fn push_param_chars(out: &mut Vec<char>, key: &Vec<char>, v: Option<Vec<char>>)
    ensures
        final(out)@ == old(out)@ + param_text(key@, opt_view(v)),
{
    match v {
        Some(x) => {
            out.push('&');
            push_all(out, key);
            out.push('=');
            push_all(out, &x);
            assert(final(out)@ =~= old(out)@ + param_text(key@, opt_view(v)));
        },
        None => {
            assert(old(out)@ + seq![] =~= old(out)@);
        },
    }
}

fn opt_chars(o: &Option<String>) -> (r: Option<Vec<char>>)
    ensures
        opt_view(r) == opt_str(*o),
{
    match o {
        Some(s) => Some(chars_of(s.as_str())),
        None => None,
    }
}

fn opt_url_encoded(o: &Option<String>) -> (r: Option<Vec<char>>)
    ensures
        opt_view(r) == opt_encoded(opt_str(*o)),
        opt_encoded_reads_back(opt_str(*o)),
{
    match o {
        Some(s) => Some(url_encode(&chars_of(s.as_str()))),
        None => None,
    }
}

pub fn join_with_commas(v: &Vec<String>) -> (r: Vec<char>)
    ensures
        r@ == join_commas(strings_view(v@)),
{
    let mut r: Vec<char> = Vec::new();
    if v.len() == 0 {
        return r;
    }
    let mut i: usize = v.len() - 1;
    r = chars_of(v[i].as_str());
    assert(strings_view(v@).subrange(i as int, v.len() as int) =~= seq![v@[i as int]@]);
    while i > 0
        invariant
            i < v.len(),
            r@ == join_commas(strings_view(v@).subrange(i as int, v.len() as int)),
        decreases i,
    {
        i = i - 1;
        let mut piece = chars_of(v[i].as_str());
        piece.push(',');
        push_all(&mut piece, &r);
        let ghost s = strings_view(v@).subrange(i as int, v.len() as int);
        assert(s.drop_first() =~= strings_view(v@).subrange(i + 1, v.len() as int));
        r = piece;
    }
    assert(strings_view(v@).subrange(0, v.len() as int) =~= strings_view(v@));
    r
}

impl Hysteria2 {
    /// Reads a `hysteria2://` link.
    pub fn from_link(link: String) -> (r: Result<Hysteria2, UnsupportedLinkError>)
        ensures
            match r {
                Ok(v) => hysteria2_decode(link@) == Some(v@),
                Err(_) => hysteria2_decode(link@) is None,
            },
    {
        let chars = chars_of(link.as_str());
        let body = match starts_with(&chars, "hysteria2://") {
            Some(b) => b,
            None => return Err(UnsupportedLinkError::new("not a hysteria2 link: ", &chars)),
        };
        let (pre, frag) = cut_first(&body, '#');
        let (main, q) = read_main_and_query(&pre);
        let (password, hostport) = match split_last_at(&main, '@') {
            Some(p) => p,
            None => return Err(UnsupportedLinkError::new("hysteria2 link without '@': ", &chars)),
        };
        let (server, port_text) = match split_authority(&hostport) {
            Some(p) => p,
            None => return Err(UnsupportedLinkError::new("hysteria2 link without port: ", &chars)),
        };
        let (port, range) = match read_ports(&port_text) {
            Some(p) => p,
            None => return Err(UnsupportedLinkError::new("hysteria2 link with a bad port: ", &chars)),
        };
        let entries = parse_query(&q);
        let ports = match range {
            Some(r) => Some(string_of(&r)),
            None => opt_string(query_value(&entries, "mport")),
        };
        let insecure = match query_value(&entries, "insecure") {
            Some(v) => eq_chars(&v, &chars_of("1")),
            None => false,
        };
        let alpn = match query_value(&entries, "alpn") {
            Some(a) => Some(strings_of(&split_all_at(&a, ','))),
            None => None,
        };
        let name = name_of_link(&frag, &server, port);
        Ok(
            Hysteria2 {
                name: string_of(&name),
                server: string_of(&server),
                password: string_of(&password),
                port,
                ports,
                hop_interval: None,
                up: opt_string_decoded(query_value(&entries, "up")),
                down: opt_string_decoded(query_value(&entries, "down")),
                obfs: opt_string(query_value(&entries, "obfs")),
                obfs_password: opt_string(query_value(&entries, "obfs-password")),
                sni: opt_string_decoded(query_value(&entries, "sni")),
                skip_cert_verify: Some(insecure),
                fingerprint: None,
                client_fingerprint: Some(string_of(&chars_of("chrome"))),
                alpn,
            },
        )
    }

    /// The query that `to_link` writes, with what percent-encoding promises of its parts.
    fn params_chars(&self) -> (r: Vec<char>)
        ensures
            r@ == hysteria2_params(self@),
            opt_encoded_reads_back(self@.sni),
            opt_encoded_reads_back(self@.up),
            opt_encoded_reads_back(self@.down),
    {
        let mut params = chars_of("insecure=");
        let flag = match self.skip_cert_verify {
            Some(true) => chars_of("1"),
            _ => chars_of("0"),
        };
        push_all(&mut params, &flag);
        let ghost s0 = params@;
        let alpn = match &self.alpn {
            Some(a) => Some(join_with_commas(a)),
            None => None,
        };
        let mut items: Vec<(Vec<char>, Option<Vec<char>>)> = Vec::new();
        items.push((chars_of("sni"), opt_url_encoded(&self.sni)));
        items.push((chars_of("obfs"), opt_chars(&self.obfs)));
        items.push((chars_of("obfs-password"), opt_chars(&self.obfs_password)));
        items.push((chars_of("mport"), opt_chars(&self.ports)));
        items.push((chars_of("up"), opt_url_encoded(&self.up)));
        items.push((chars_of("down"), opt_url_encoded(&self.down)));
        items.push((chars_of("alpn"), alpn));
        assert(item_views(items@) =~= h2_items(self@));
        let mut k: usize = 0;
        assert(item_views(items@).subrange(0, 0) =~= Seq::<(Seq<char>, Option<Seq<char>>)>::empty());
        while k < items.len()
            invariant
                k <= items.len(),
                params@ == s0 + amp_pairs(present(item_views(items@).subrange(0, k as int))),
            decreases items.len() - k,
        {
            proof {
                lemma_present_step(item_views(items@), k as int);
            }
            let ghost before = params@;
            let value = match &items[k].1 {
                Some(x) => Some(slice_chars(x, 0, x.len())),
                None => None,
            };
            proof {
                match items@[k as int].1 {
                    Some(x) => {
                        assert(x@.subrange(0, x@.len() as int) =~= x@);
                    },
                    None => {},
                }
            }
            push_param_chars(&mut params, &items[k].0, value);
            k = k + 1;
        }
        assert(item_views(items@).subrange(0, 7) =~= h2_items(self@));
        params
    }

    fn link_chars(&self) -> (r: Vec<char>)
        ensures
            r@ == hysteria2_encode(self@),
            opt_encoded_reads_back(self@.sni),
            opt_encoded_reads_back(self@.up),
            opt_encoded_reads_back(self@.down),
            percent_decoded(percent_encoded(self@.name)) == Some(self@.name),
            encoded_text(percent_encoded(self@.name)),
    {
        let params = self.params_chars();
        let mut out = chars_of("hysteria2://");
        push_all(&mut out, &chars_of(self.password.as_str()));
        out.push('@');
        let server = chars_of(self.server.as_str());
        if has_char(&server, ':') {
            out.push('[');
            push_all(&mut out, &server);
            out.push(']');
        } else {
            push_all(&mut out, &server);
        }
        out.push(':');
        push_all(&mut out, &dec_chars(self.port as u64));
        push_all(&mut out, &chars_of("/?"));
        push_all(&mut out, &params);
        out.push('#');
        let name = url_encode(&chars_of(self.name.as_str()));
        push_all(&mut out, &name);
        out
    }

    /// Writes the node as a `hysteria2://` link; reading the link back gives the node.
    pub fn to_link(&self) -> (r: String)
        ensures
            r@ == hysteria2_encode(self@),
            h2_link_ready(self@) ==> hysteria2_decode(r@) == Some(self@),
    {
        let out = self.link_chars();
        proof {
            if h2_link_ready(self@) {
                lemma_h2_round_trip(self@);
            }
        }
        string_of(&out)
    }
}

} // verus!

verus! {

pub open spec fn segments(p: Seq<(Seq<char>, Seq<char>)>) -> Seq<Seq<char>> {
    p.map_values(|e: (Seq<char>, Seq<char>)| e.0.push('=') + e.1)
}

/// Every key and value of `p` lacks `c`.
pub open spec fn pairs_lack(p: Seq<(Seq<char>, Seq<char>)>, c: char) -> bool {
    forall|k: int| 0 <= k < p.len() ==> no_char(#[trigger] p[k].0, c) && no_char(p[k].1, c)
}

proof fn lemma_amp_pairs_no_char(p: Seq<(Seq<char>, Seq<char>)>, c: char)
    requires
        pairs_lack(p, c),
        c != '&' && c != '=',
    ensures
        no_char(amp_pairs(p), c),
    decreases p.len(),
{
    if p.len() > 0 {
        let d = p.drop_last();
        assert forall|k: int| 0 <= k < d.len() implies no_char(#[trigger] d[k].0, c) && no_char(
            d[k].1,
            c,
        ) by {
            assert(d[k] == p[k]);
        }
        lemma_amp_pairs_no_char(d, c);
        let e = p.last();
        assert(no_char(e.0, c) && no_char(e.1, c));
        lemma_no_char_concat(amp_pairs(d), seq!['&'], c);
        lemma_no_char_concat(amp_pairs(d) + seq!['&'], e.0.push('='), c);
        lemma_no_char_concat(amp_pairs(d) + seq!['&'] + e.0.push('='), e.1, c);
    }
}

proof fn lemma_split_amp(s0: Seq<char>, p: Seq<(Seq<char>, Seq<char>)>)
    requires
        no_char(s0, '&'),
        pairs_lack(p, '&'),
    ensures
        split_all(s0 + amp_pairs(p), '&') == seq![s0] + segments(p),
    decreases p.len(),
{
    if p.len() == 0 {
        assert(s0 + amp_pairs(p) =~= s0);
        crate::text::lemma_first_none(s0, '&');
        assert(seq![s0] + segments(p) =~= seq![s0]);
    } else {
        let d = p.drop_last();
        assert forall|k: int| 0 <= k < d.len() implies no_char(#[trigger] d[k].0, '&') && no_char(
            d[k].1,
            '&',
        ) by {
            assert(d[k] == p[k]);
        }
        lemma_split_amp(s0, d);
        let e = p.last();
        let seg = e.0.push('=') + e.1;
        assert(no_char(e.0, '&') && no_char(e.1, '&'));
        lemma_no_char_concat(e.0.push('='), e.1, '&');
        crate::text::lemma_first_none(seg, '&');
        assert(s0 + amp_pairs(p) =~= (s0 + amp_pairs(d)).push('&') + seg);
        crate::text::lemma_split_all_append(s0 + amp_pairs(d), '&', seg);
        assert(segments(p) =~= segments(d).push(seg));
        assert(seq![s0] + segments(d) + seq![seg] =~= seq![s0] + segments(p));
    }
}

proof fn lemma_entries_segments(
    k0: Seq<char>,
    v0: Seq<char>,
    p: Seq<(Seq<char>, Seq<char>)>,
)
    requires
        no_char(k0, '='),
        forall|k: int| 0 <= k < p.len() ==> no_char(#[trigger] p[k].0, '='),
    ensures
        crate::protocol::link::entries_of(seq![k0.push('=') + v0] + segments(p)) == seq![(k0, v0)]
            + p,
    decreases p.len(),
{
    let all = seq![k0.push('=') + v0] + segments(p);
    if p.len() == 0 {
        assert(all =~= seq![k0.push('=') + v0]);
        assert(all.drop_last() =~= Seq::<Seq<char>>::empty());
        assert(crate::protocol::link::entries_of(all.drop_last()) =~= Seq::<
            (Seq<char>, Seq<char>),
        >::empty());
        assert(all.last() == k0.push('=') + v0);
        crate::text::lemma_split_first_concat(k0, '=', v0);
        assert(seq![(k0, v0)] + p =~= seq![(k0, v0)]);
        assert(Seq::<(Seq<char>, Seq<char>)>::empty().push((k0, v0)) =~= seq![(k0, v0)]);
    } else {
        let d = p.drop_last();
        assert forall|k: int| 0 <= k < d.len() implies no_char(#[trigger] d[k].0, '=') by {
            assert(d[k] == p[k]);
        }
        lemma_entries_segments(k0, v0, d);
        let e = p.last();
        assert(no_char(e.0, '='));
        assert(all.drop_last() =~= seq![k0.push('=') + v0] + segments(d));
        assert(all.last() == e.0.push('=') + e.1);
        crate::text::lemma_split_first_concat(e.0, '=', e.1);
        assert(crate::protocol::link::entries_of(all) == crate::protocol::link::entries_of(
            all.drop_last(),
        ).push((e.0, e.1)));
        assert(p =~= d.push(e));
        assert((seq![(k0, v0)] + d).push((e.0, e.1)) =~= seq![(k0, v0)] + p);
    }
}

proof fn lemma_lookup_absent(items: Seq<(Seq<char>, Option<Seq<char>>)>, key: Seq<char>)
    requires
        forall|j: int| 0 <= j < items.len() ==> (#[trigger] items[j]).0 != key,
    ensures
        crate::protocol::link::lookup(present(items), key) is None,
    decreases items.len(),
{
    if items.len() > 0 {
        let d = items.drop_last();
        assert forall|j: int| 0 <= j < d.len() implies (#[trigger] d[j]).0 != key by {
            assert(d[j] == items[j]);
        }
        lemma_lookup_absent(d, key);
        match items.last().1 {
            Some(x) => {
                let r = present(d);
                assert(r.push((items.last().0, x)).drop_last() =~= r);
            },
            None => {},
        }
    }
}

proof fn lemma_lookup_present(items: Seq<(Seq<char>, Option<Seq<char>>)>, j: int)
    requires
        0 <= j < items.len(),
        forall|a: int, b: int| 0 <= a < b < items.len() ==> items[a].0 != items[b].0,
    ensures
        crate::protocol::link::lookup(present(items), items[j].0) == items[j].1,
    decreases items.len(),
{
    let d = items.drop_last();
    let key = items[j].0;
    if j == items.len() - 1 {
        assert forall|i: int| 0 <= i < d.len() implies (#[trigger] d[i]).0 != key by {
            assert(d[i] == items[i]);
        }
        lemma_lookup_absent(d, key);
        match items.last().1 {
            Some(x) => {},
            None => {},
        }
    } else {
        assert(d[j] == items[j]);
        assert forall|a: int, b: int| 0 <= a < b < d.len() implies d[a].0 != d[b].0 by {
            assert(d[a] == items[a]);
            assert(d[b] == items[b]);
        }
        lemma_lookup_present(d, j);
        assert(items.last().0 != key);
        match items.last().1 {
            Some(x) => {
                let r = present(d);
                assert(r.push((items.last().0, x)).drop_last() =~= r);
            },
            None => {},
        }
    }
}

proof fn lemma_lookup_after_first(
    k0: Seq<char>,
    v0: Seq<char>,
    p: Seq<(Seq<char>, Seq<char>)>,
    key: Seq<char>,
)
    ensures
        crate::protocol::link::lookup(seq![(k0, v0)] + p, key) == match crate::protocol::link::lookup(p, key) {
            Some(x) => Some(x),
            None => if k0 == key {
                Some(v0)
            } else {
                None
            },
        },
    decreases p.len(),
{
    let all = seq![(k0, v0)] + p;
    if p.len() == 0 {
        assert(all =~= seq![(k0, v0)]);
        assert(all.drop_last() =~= Seq::<(Seq<char>, Seq<char>)>::empty());
        assert(crate::protocol::link::lookup(all.drop_last(), key) is None);
        assert(crate::protocol::link::lookup(p, key) is None);
    } else {
        lemma_lookup_after_first(k0, v0, p.drop_last(), key);
        assert(all.drop_last() =~= seq![(k0, v0)] + p.drop_last());
        assert(all.last() == p.last());
    }
}

proof fn lemma_split_join(a: Seq<Seq<char>>)
    requires
        a.len() > 0,
        forall|k: int| 0 <= k < a.len() ==> no_char(#[trigger] a[k], ','),
    ensures
        split_all(join_commas(a), ',') == a,
    decreases a.len(),
{
    if a.len() == 1 {
        crate::text::lemma_first_none(a[0], ',');
        assert(seq![a[0]] =~= a);
    } else {
        let rest = a.drop_first();
        assert forall|k: int| 0 <= k < rest.len() implies no_char(#[trigger] rest[k], ',') by {
            assert(rest[k] == a[k + 1]);
        }
        lemma_split_join(rest);
        assert(no_char(a[0], ','));
        crate::text::lemma_split_all_concat(a[0], ',', join_commas(rest));
        assert(seq![a[0]] + rest =~= a);
    }
}

proof fn lemma_join_no_char(a: Seq<Seq<char>>, c: char)
    requires
        c != ',',
        forall|k: int| 0 <= k < a.len() ==> no_char(#[trigger] a[k], c),
    ensures
        no_char(join_commas(a), c),
    decreases a.len(),
{
    if a.len() > 1 {
        let rest = a.drop_first();
        assert forall|k: int| 0 <= k < rest.len() implies no_char(#[trigger] rest[k], c) by {
            assert(rest[k] == a[k + 1]);
        }
        lemma_join_no_char(rest, c);
        assert(no_char(a[0], c));
        lemma_no_char_concat(a[0].push(','), join_commas(rest), c);
    } else if a.len() == 1 {
        assert(no_char(a[0], c));
    }
}

} // verus!

verus! {

/// A value that the query can carry as it stands.
pub open spec fn plain_value(o: Option<Seq<char>>) -> bool {
    match o {
        Some(x) => no_char(x, '&') && no_char(x, '#'),
        None => true,
    }
}

/// A node that a `hysteria2://` link can carry whole: it has a name; the password holds no
/// `#` or `?`; the server no `@`, `?` or `#` (and is not itself wrapped in brackets unless it
/// holds a colon); obfuscation, its password and the port range hold no `&` or `#`; a list of
/// protocols is not empty and its items hold no `,`, `&` or `#`; and the fields that the link
/// does not carry hold what reading a link gives them.
pub open spec fn h2_link_ready(v: Hysteria2View) -> bool {
    &&& v.name.len() > 0
    &&& no_char(v.password, '#') && no_char(v.password, '?')
    &&& no_char(v.server, '@') && no_char(v.server, '?') && no_char(v.server, '#')
    &&& no_char(v.server, ':') ==> !(v.server.len() >= 2 && v.server[0] == '[' && v.server.last()
        == ']')
    &&& v.skip_cert_verify is Some
    &&& v.hop_interval is None && v.fingerprint is None && v.client_fingerprint == Some("chrome"@)
    &&& plain_value(v.obfs) && plain_value(v.obfs_password) && plain_value(v.ports)
    &&& match v.alpn {
        None => true,
        Some(a) => a.len() > 0 && forall|k: int|
            0 <= k < a.len() ==> no_char(#[trigger] a[k], ',') && no_char(a[k], '&') && no_char(
                a[k],
                '#',
            ),
    }
}

proof fn lemma_present_members(items: Seq<(Seq<char>, Option<Seq<char>>)>)
    ensures
        forall|k: int|
            #![trigger present(items)[k]]
            0 <= k < present(items).len() ==> exists|j: int|
                0 <= j < items.len() && (#[trigger] items[j]).0 == present(items)[k].0 && items[j].1
                    == Some(present(items)[k].1),
    decreases items.len(),
{
    if items.len() > 0 {
        let d = items.drop_last();
        lemma_present_members(d);
        let p = present(items);
        assert forall|k: int| #![trigger p[k]] 0 <= k < p.len() implies exists|j: int|
            0 <= j < items.len() && (#[trigger] items[j]).0 == p[k].0 && items[j].1 == Some(
                p[k].1,
            ) by {
            if k < present(d).len() {
                assert(p[k] == present(d)[k]);
                let j = choose|j: int|
                    0 <= j < d.len() && (#[trigger] d[j]).0 == present(d)[k].0 && d[j].1 == Some(
                        present(d)[k].1,
                    );
                assert(items[j] == d[j]);
            } else {
                assert(items[items.len() - 1] == items.last());
            }
        }
    }
}

proof fn lemma_h2_query(v: Hysteria2View)
    requires
        h2_link_ready(v),
        opt_encoded_reads_back(v.sni),
        opt_encoded_reads_back(v.up),
        opt_encoded_reads_back(v.down),
    ensures
        no_char(hysteria2_params(v), '#'),
        query_get(hysteria2_params(v), "insecure"@) == Some(
            if v.skip_cert_verify == Some(true) {
                "1"@
            } else {
                "0"@
            },
        ),
        forall|j: int|
            0 <= j < h2_items(v).len() ==> query_get(hysteria2_params(v), (#[trigger] h2_items(v)[j]).0)
                == h2_items(v)[j].1,
{
    reveal_strlit("insecure=");
    reveal_strlit("insecure");
    reveal_strlit("1");
    reveal_strlit("0");
    reveal_strlit("sni");
    reveal_strlit("obfs");
    reveal_strlit("obfs-password");
    reveal_strlit("mport");
    reveal_strlit("up");
    reveal_strlit("down");
    reveal_strlit("alpn");
    let items = h2_items(v);
    let flag = if v.skip_cert_verify == Some(true) {
        "1"@
    } else {
        "0"@
    };
    let s0 = "insecure="@ + flag;
    let p = present(items);
    assert(hysteria2_params(v) == s0 + amp_pairs(p));
    assert(s0 =~= "insecure"@.push('=') + flag);
    lemma_present_members(items);
    match v.sni {
        Some(x) => lemma_encoded_no_chars(percent_encoded(x)),
        None => {},
    }
    match v.up {
        Some(x) => lemma_encoded_no_chars(percent_encoded(x)),
        None => {},
    }
    match v.down {
        Some(x) => lemma_encoded_no_chars(percent_encoded(x)),
        None => {},
    }
    match v.alpn {
        Some(a) => {
            lemma_join_no_char(a, '&');
            lemma_join_no_char(a, '#');
        },
        None => {},
    }
    assert forall|j: int| 0 <= j < items.len() implies no_char((#[trigger] items[j]).0, '&')
        && no_char(items[j].0, '#') && no_char(items[j].0, '=') && plain_value(items[j].1) by {
    }
    assert forall|k: int| 0 <= k < p.len() implies no_char(#[trigger] p[k].0, '&') && no_char(
        p[k].1,
        '&',
    ) && no_char(p[k].0, '#') && no_char(p[k].1, '#') && no_char(p[k].0, '=') by {
        let j = choose|j: int|
            0 <= j < items.len() && (#[trigger] items[j]).0 == p[k].0 && items[j].1 == Some(p[k].1);
        assert(plain_value(items[j].1));
    }
    assert(pairs_lack(p, '&'));
    assert(pairs_lack(p, '#'));
    lemma_amp_pairs_no_char(p, '#');
    lemma_no_char_concat(s0, amp_pairs(p), '#');
    lemma_split_amp(s0, p);
    lemma_entries_segments("insecure"@, flag, p);
    assert(crate::protocol::link::query_entries(hysteria2_params(v)) == seq![("insecure"@, flag)]
        + p);
    assert forall|j: int| 0 <= j < items.len() implies (#[trigger] items[j]).0 != "insecure"@ by {
    }
    lemma_lookup_absent(items, "insecure"@);
    lemma_lookup_after_first("insecure"@, flag, p, "insecure"@);
    assert(items[0].0.len() == 3 && items[0].0[0] == 's');
    assert(items[1].0.len() == 4 && items[1].0[0] == 'o');
    assert(items[2].0.len() == 13 && items[2].0[0] == 'o');
    assert(items[3].0.len() == 5 && items[3].0[0] == 'm');
    assert(items[4].0.len() == 2 && items[4].0[0] == 'u');
    assert(items[5].0.len() == 4 && items[5].0[0] == 'd');
    assert(items[6].0.len() == 4 && items[6].0[0] == 'a');
    assert forall|a: int, b: int| 0 <= a < b < items.len() implies items[a].0 != items[b].0 by {
        if items[a].0 == items[b].0 {
            assert(items[a].0.len() == items[b].0.len());
            assert(items[a].0[0] == items[b].0[0]);
        }
    }
    assert forall|j: int| 0 <= j < items.len() implies query_get(
        hysteria2_params(v),
        (#[trigger] items[j]).0,
    ) == items[j].1 by {
        lemma_lookup_present(items, j);
        lemma_lookup_after_first("insecure"@, flag, p, items[j].0);
    }
}

proof fn lemma_encoded_no_chars(s: Seq<char>)
    requires
        encoded_text(s),
    ensures
        no_char(s, '&'),
        no_char(s, '#'),
{
    assert forall|i: int| 0 <= i < s.len() implies s[i] != '&' && s[i] != '#' by {
        assert(crate::percent::is_unreserved(s[i]) || s[i] == '%');
    }
}

} // verus!

verus! {

/// Reading a written link reaches the pieces it was written from.
#[verifier::rlimit(60)]
proof fn lemma_h2_parse(v: Hysteria2View)
    requires
        h2_link_ready(v),
        opt_encoded_reads_back(v.sni),
        opt_encoded_reads_back(v.up),
        opt_encoded_reads_back(v.down),
        encoded_text(percent_encoded(v.name)),
    ensures
        hysteria2_decode(hysteria2_encode(v)) == Some(
            h2_view(
                Some(percent_encoded(v.name)),
                v.server,
                v.password,
                (v.port, None),
                hysteria2_params(v),
            ),
        ),
{
    reveal_strlit("/?");
    let auth = write_authority(v.server, v.port);
    let q = hysteria2_params(v);
    let en = percent_encoded(v.name);
    let m = v.password.push('@') + auth + seq!['/'];
    let pre = m.push('?') + q;
    let body = pre.push('#') + en;
    let link = hysteria2_encode(v);
    assert(link =~= "hysteria2://"@ + body);
    assert(link.subrange(0, ("hysteria2://"@).len() as int) =~= "hysteria2://"@);
    assert(after_prefix(link, "hysteria2://"@) =~= body);
    lemma_h2_query(v);
    crate::protocol::ss::lemma_authority_no_char(v.server, v.port, '#');
    crate::protocol::ss::lemma_authority_no_char(v.server, v.port, '?');
    crate::protocol::ss::lemma_authority_no_char(v.server, v.port, '@');
    crate::protocol::ss::lemma_authority_read_back(v.server, v.port);
    assert(no_char(m, '#')) by {
        lemma_no_char_concat(v.password, seq!['@'], '#');
        assert(v.password.push('@') =~= v.password + seq!['@']);
        lemma_no_char_concat(v.password.push('@'), auth, '#');
        lemma_no_char_concat(v.password.push('@') + auth, seq!['/'], '#');
    }
    assert(no_char(m, '?')) by {
        lemma_no_char_concat(v.password, seq!['@'], '?');
        assert(v.password.push('@') =~= v.password + seq!['@']);
        lemma_no_char_concat(v.password.push('@'), auth, '?');
        lemma_no_char_concat(v.password.push('@') + auth, seq!['/'], '?');
    }
    assert(no_char(pre, '#')) by {
        lemma_no_char_concat(m, seq!['?'], '#');
        assert(m.push('?') =~= m + seq!['?']);
        lemma_no_char_concat(m.push('?'), q, '#');
    }
    crate::text::lemma_split_first_concat(pre, '#', en);
    crate::text::lemma_split_first_concat(m, '?', q);
    assert(m.drop_last() =~= v.password.push('@') + auth);
    assert(main_and_query(pre) == (v.password.push('@') + auth, q));
    crate::text::lemma_split_last_concat(v.password, '@', auth);
    assert(ports_of(dec(v.port as nat)) == Some((v.port, None::<Seq<char>>)));
}

/// The pieces of a written link make up the node.
#[verifier::rlimit(60)]
proof fn lemma_h2_view(v: Hysteria2View)
    requires
        h2_link_ready(v),
        opt_encoded_reads_back(v.sni),
        opt_encoded_reads_back(v.up),
        opt_encoded_reads_back(v.down),
        percent_decoded(percent_encoded(v.name)) == Some(v.name),
    ensures
        h2_view(Some(percent_encoded(v.name)), v.server, v.password, (v.port, None), hysteria2_params(v))
            == v,
{
    reveal_strlit("1");
    reveal_strlit("0");
    let q = hysteria2_params(v);
    lemma_h2_query(v);
    let items = h2_items(v);
    assert(query_get(q, items[0].0) == items[0].1);
    assert(query_get(q, items[1].0) == items[1].1);
    assert(query_get(q, items[2].0) == items[2].1);
    assert(query_get(q, items[3].0) == items[3].1);
    assert(query_get(q, items[4].0) == items[4].1);
    assert(query_get(q, items[5].0) == items[5].1);
    assert(query_get(q, items[6].0) == items[6].1);
    match v.alpn {
        Some(a) => {
            lemma_split_join(a);
        },
        None => {},
    }
    assert("0"@[0] == '0' && "1"@[0] == '1');
    assert("0"@ != "1"@);
    let d = h2_view(Some(percent_encoded(v.name)), v.server, v.password, (v.port, None), q);
    assert(d.name == v.name);
    assert(d.up == v.up);
    assert(d.down == v.down);
    assert(d.sni == v.sni);
    assert(d.alpn == v.alpn);
    assert(d.skip_cert_verify == v.skip_cert_verify);
}

/// The decoding of a written link gives back the node.
proof fn lemma_h2_round_trip(v: Hysteria2View)
    requires
        h2_link_ready(v),
        opt_encoded_reads_back(v.sni),
        opt_encoded_reads_back(v.up),
        opt_encoded_reads_back(v.down),
        percent_decoded(percent_encoded(v.name)) == Some(v.name),
        encoded_text(percent_encoded(v.name)),
    ensures
        hysteria2_decode(hysteria2_encode(v)) == Some(v),
{
    lemma_h2_parse(v);
    lemma_h2_view(v);
}

} // verus!
