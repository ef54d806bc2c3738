//! Shadowsocks links: `ss://base64(cipher:password)@server:port?plugin=...#name`.
use vstd::prelude::*;
use crate::base64::base64_decoded;
use crate::base64::base64_encoded;
use crate::base64::base64decode;
use crate::base64::base64encode;
use crate::base64::decode_or_raw;
use crate::base64::decoded_or_raw;
use crate::base64::is_standard_b64_char;
use crate::base64::DecodeError;
use crate::percent::is_unreserved;
use crate::text::dec;
use crate::text::lemma_no_char_concat;
use crate::text::no_char;
use crate::percent::percent_decoded;
use crate::percent::percent_encoded;
use crate::percent::url_decode;
use crate::percent::url_encode;
use crate::protocol::link::after_prefix;
use crate::protocol::link::authority;
use crate::protocol::link::cut_first;
use crate::protocol::link::entry_views;
use crate::protocol::link::has_prefix;
use crate::protocol::link::link_name;
use crate::protocol::link::name_of_link;
use crate::protocol::link::opt_str;
use crate::protocol::link::opt_view;
use crate::protocol::link::parse_query;
use crate::protocol::link::query_get;
use crate::protocol::link::query_value;
use crate::protocol::link::split_authority;
use crate::protocol::link::starts_with;
use crate::protocol::link::write_authority;
use crate::protocol::link::Entry;
use crate::protocol::UnsupportedLinkError;
use crate::text::chars_of;
use crate::text::dec_chars;
use crate::text::has_char;
use crate::text::parse_u16;
use crate::text::parse_u16_chars;
use crate::text::push_all;
use crate::text::slice_chars;
use crate::text::split_all;
use crate::text::split_all_at;
use crate::text::split_first;
use crate::text::split_first_at;
use crate::text::split_last;
use crate::text::split_last_at;
use crate::text::string_of;
use crate::text::views;

verus! {

/// A Shadowsocks node.
#[derive(Debug, Clone)]
pub struct SS {
    pub name: String,
    pub server: String,
    pub port: u16,
    pub password: String,
    pub cipher: String,
    pub plugin: Option<String>,
    pub plugin_opts: Option<Vec<(String, String)>>,
}

pub struct SSView {
    pub name: Seq<char>,
    pub server: Seq<char>,
    pub port: u16,
    pub password: Seq<char>,
    pub cipher: Seq<char>,
    pub plugin: Option<Seq<char>>,
    pub plugin_opts: Option<Seq<(Seq<char>, Seq<char>)>>,
}

pub open spec fn pairs_view(v: Seq<(String, String)>) -> Seq<(Seq<char>, Seq<char>)> {
    v.map_values(|p: (String, String)| (p.0@, p.1@))
}

pub open spec fn opt_pairs(o: Option<Vec<(String, String)>>) -> Option<
    Seq<(Seq<char>, Seq<char>)>,
> {
    match o {
        Some(v) => Some(pairs_view(v@)),
        None => None,
    }
}

impl View for SS {
    type V = SSView;

    open spec fn view(&self) -> SSView {
        SSView {
            name: self.name@,
            server: self.server@,
            port: self.port,
            password: self.password@,
            cipher: self.cipher@,
            plugin: opt_str(self.plugin),
            plugin_opts: opt_pairs(self.plugin_opts),
        }
    }
}

/// The options among the `;`-separated pieces after the plugin name: each piece
/// percent-decoded and split at its first `=`.
pub open spec fn plugin_options(pieces: Seq<Seq<char>>) -> Seq<(Seq<char>, Seq<char>)>
    decreases pieces.len(),
{
    if pieces.len() == 0 {
        seq![]
    } else {
        let rest = plugin_options(pieces.drop_first());
        match percent_decoded(pieces[0]) {
            Some(d) => match split_first(d, '=') {
                Some(kv) => seq![kv] + rest,
                None => rest,
            },
            None => rest,
        }
    }
}

/// The plugin and its options named by the query of a link.
pub open spec fn plugin_of(query: Option<Seq<char>>) -> (
    Option<Seq<char>>,
    Option<Seq<(Seq<char>, Seq<char>)>>,
) {
    match query {
        None => (None, None),
        Some(q) => match query_get(q, "plugin"@) {
            None => (None, None),
            Some(v) => {
                let pieces = split_all(v, ';');
                (
                    Some(pieces[0]),
                    if pieces.len() > 1 {
                        Some(plugin_options(pieces.subrange(1, pieces.len() as int)))
                    } else {
                        None
                    },
                )
            },
        },
    }
}

/// The node that a link body without its fragment describes, still without a name.
pub open spec fn ss_body(pre: Seq<char>) -> Option<SSView> {
    let main = match split_first(pre, '?') {
        Some(p) => p.0,
        None => pre,
    };
    let query = match split_first(pre, '?') {
        Some(p) => Some(p.1),
        None => None,
    };
    match split_last(main, '@') {
        None => None,
        Some(up) => match authority(up.1) {
            None => None,
            Some(hp) => match parse_u16(hp.1) {
                None => None,
                Some(port) => match split_first(decoded_or_raw(up.0), ':') {
                    None => None,
                    Some(cp) => Some(
                        SSView {
                            name: seq![],
                            server: hp.0,
                            port,
                            password: cp.1,
                            cipher: cp.0,
                            plugin: plugin_of(query).0,
                            plugin_opts: plugin_of(query).1,
                        },
                    ),
                },
            },
        },
    }
}

pub open spec fn named(v: SSView, frag: Option<Seq<char>>) -> SSView {
    SSView { name: link_name(frag, v.server, v.port), ..v }
}

/// The node that an `ss://` link describes. The body is read as it stands; where that
/// fails, the body before the fragment is read as base64 of the whole link body.
pub open spec fn ss_decode(link: Seq<char>) -> Option<SSView> {
    if !has_prefix(link, "ss://"@) {
        None
    } else {
        let body = after_prefix(link, "ss://"@);
        let pre = match split_first(body, '#') {
            Some(p) => p.0,
            None => body,
        };
        let frag = match split_first(body, '#') {
            Some(p) => Some(p.1),
            None => None,
        };
        match ss_body(pre) {
            Some(v) => Some(named(v, frag)),
            None => match base64_decoded(pre) {
                Err(_) => None,
                Ok(d) => {
                    let pre2 = match split_first(d, '#') {
                        Some(p) => p.0,
                        None => d,
                    };
                    let frag2 = match split_first(d, '#') {
                        Some(p) => Some(p.1),
                        None => frag,
                    };
                    match ss_body(pre2) {
                        Some(v) => Some(named(v, frag2)),
                        None => None,
                    }
                },
            },
        }
    }
}

/// `;k=v` for each option, each `k=v` percent-encoded.
pub open spec fn opts_text(o: Seq<(Seq<char>, Seq<char>)>) -> Seq<char>
    decreases o.len(),
{
    if o.len() == 0 {
        seq![]
    } else {
        seq![';'] + percent_encoded(o[0].0.push('=') + o[0].1) + opts_text(o.drop_first())
    }
}

pub open spec fn plugin_text(
    plugin: Option<Seq<char>>,
    opts: Option<Seq<(Seq<char>, Seq<char>)>>,
) -> Seq<char> {
    match plugin {
        None => seq![],
        Some(p) => "?plugin="@ + p + match opts {
            None => seq![],
            Some(o) => opts_text(o),
        },
    }
}

/// The link that `to_link` writes for a node.
pub open spec fn ss_encode(v: SSView) -> Seq<char> {
    "ss://"@ + base64_encoded(v.cipher.push(':') + v.password).push('@') + write_authority(
        v.server,
        v.port,
    ) + plugin_text(v.plugin, v.plugin_opts) + seq!['#'] + percent_encoded(v.name)
}

fn to_strings(e: &Vec<Entry>) -> (r: Vec<(String, String)>)
    ensures
        pairs_view(r@) == entry_views(e@),
{
    let mut r: Vec<(String, String)> = Vec::new();
    let mut i: usize = 0;
    while i < e.len()
        invariant
            i <= e.len(),
            pairs_view(r@) == entry_views(e@).subrange(0, i as int),
        decreases e.len() - i,
    {
        let a = string_of(&e[i].0);
        let b = string_of(&e[i].1);
        let ghost before = r@;
        r.push((a, b));
        assert(r@ == before.push((a, b)));
        assert(pairs_view(r@) =~= pairs_view(before).push((a@, b@)));
        i = i + 1;
        assert(pairs_view(r@) =~= entry_views(e@).subrange(0, i as int));
    }
    assert(entry_views(e@).subrange(0, e.len() as int) =~= entry_views(e@));
    r
}

fn read_plugin_options(pieces: &Vec<Vec<char>>) -> (r: Vec<Entry>)
    requires
        pieces.len() >= 1,
    ensures
        entry_views(r@) == plugin_options(views(pieces@).subrange(1, pieces.len() as int)),
{
    let ghost all = views(pieces@).subrange(1, pieces.len() as int);
    let mut r: Vec<Entry> = Vec::new();
    let mut i: usize = 1;
    assert(views(pieces@).subrange(1, pieces.len() as int) =~= all);
    while i < pieces.len()
        invariant
            1 <= i <= pieces.len(),
            all == views(pieces@).subrange(1, pieces.len() as int),
            entry_views(r@) + plugin_options(views(pieces@).subrange(i as int, pieces.len() as int))
                == plugin_options(all),
        decreases pieces.len() - i,
    {
        let ghost rest = views(pieces@).subrange(i as int, pieces.len() as int);
        assert(rest.drop_first() =~= views(pieces@).subrange(i + 1, pieces.len() as int));
        assert(rest[0] == pieces@[i as int]@);
        match url_decode(&pieces[i]) {
            Some(d) => match split_first_at(&d, '=') {
                Some(kv) => {
                    let ghost old_r = entry_views(r@);
                    r.push(kv);
                    assert(entry_views(r@) =~= old_r.push((kv.0@, kv.1@)));
                    assert(old_r.push((kv.0@, kv.1@)) + plugin_options(rest.drop_first()) =~= old_r
                        + (seq![(kv.0@, kv.1@)] + plugin_options(rest.drop_first())));
                },
                None => {},
            },
            None => {},
        }
        i = i + 1;
    }
    assert(entry_views(r@) + plugin_options(
        views(pieces@).subrange(pieces.len() as int, pieces.len() as int),
    ) =~= entry_views(r@));
    r
}

fn read_plugin(query: &Option<Vec<char>>) -> (r: (Option<String>, Option<Vec<(String, String)>>))
    ensures
        opt_str(r.0) == plugin_of(opt_view(*query)).0,
        opt_pairs(r.1) == plugin_of(opt_view(*query)).1,
{
    match query {
        None => (None, None),
        Some(q) => {
            let entries = parse_query(q);
            match query_value(&entries, "plugin") {
                None => (None, None),
                Some(v) => {
                    let pieces = split_all_at(&v, ';');
                    proof {
                        crate::text::lemma_split_all_nonempty(v@, ';');
                    }
                    let plugin = string_of(&pieces[0]);
                    if pieces.len() > 1 {
                        let opts = read_plugin_options(&pieces);
                        (Some(plugin), Some(to_strings(&opts)))
                    } else {
                        (Some(plugin), None)
                    }
                },
            }
        },
    }
}

impl SS {
    fn read_body(pre: &Vec<char>) -> (r: Option<SS>)
        ensures
            match r {
                Some(v) => ss_body(pre@) == Some(v@),
                None => ss_body(pre@) is None,
            },
    {
        let (main, query) = cut_first(pre, '?');
        let (userinfo, hostport) = match split_last_at(&main, '@') {
            Some(p) => p,
            None => return None,
        };
        let (server, port_text) = match split_authority(&hostport) {
            Some(p) => p,
            None => return None,
        };
        let port = match parse_u16_chars(&port_text) {
            Some(p) => p,
            None => return None,
        };
        let credentials = decode_or_raw(&userinfo);
        let (cipher, password) = match split_first_at(&credentials, ':') {
            Some(p) => p,
            None => return None,
        };
        let (plugin, plugin_opts) = read_plugin(&query);
        Some(
            SS {
                name: String::new(),
                server: string_of(&server),
                port,
                password: string_of(&password),
                cipher: string_of(&cipher),
                plugin,
                plugin_opts,
            },
        )
    }

    /// Reads an `ss://` link.
    pub fn from_link(link: String) -> (r: Result<SS, UnsupportedLinkError>)
        ensures
            match r {
                Ok(v) => ss_decode(link@) == Some(v@),
                Err(_) => ss_decode(link@) is None,
            },
    {
        let chars = chars_of(link.as_str());
        let body = match starts_with(&chars, "ss://") {
            Some(b) => b,
            None => return Err(UnsupportedLinkError::new("not a shadowsocks link: ", &chars)),
        };
        let (pre, frag) = cut_first(&body, '#');
        match SS::read_body(&pre) {
            Some(mut v) => {
                let name = name_of_link(&frag, &chars_of(v.server.as_str()), v.port);
                v.name = string_of(&name);
                Ok(v)
            },
            None => {
                let text = string_of(&pre);
                match base64decode(text.as_str()) {
                    Err(_) => Err(UnsupportedLinkError::new("malformed shadowsocks link: ", &chars)),
                    Ok(d) => {
                        let dc = chars_of(d.as_str());
                        let (pre2, frag2) = cut_first(&dc, '#');
                        let f = match frag2 {
                            Some(x) => Some(x),
                            None => frag,
                        };
                        match SS::read_body(&pre2) {
                            Some(mut v) => {
                                let name = name_of_link(&f, &chars_of(v.server.as_str()), v.port);
                                v.name = string_of(&name);
                                Ok(v)
                            },
                            None => Err(
                                UnsupportedLinkError::new("malformed shadowsocks link: ", &chars),
                            ),
                        }
                    },
                }
            },
        }
    }

    /// Writes the node as an `ss://` link; reading the link back gives the node.
    pub fn to_link(&self) -> (r: String)
        ensures
            r@ == ss_encode(self@),
            ss_link_ready(self@) ==> ss_decode(r@) == Some(self@),
    {
        let out = self.link_chars();
        proof {
            if ss_link_ready(self@) {
                lemma_ss_round_trip(self@);
            }
        }
        string_of(&out)
    }

    fn link_chars(&self) -> (r: Vec<char>)
        ensures
            r@ == ss_encode(self@),
            base64_decoded(base64_encoded(self@.cipher.push(':') + self@.password)) == Ok::<
                Seq<char>,
                DecodeError,
            >(self@.cipher.push(':') + self@.password),
            forall|i: int|
                0 <= i < base64_encoded(self@.cipher.push(':') + self@.password).len()
                    ==> is_standard_b64_char(
                    #[trigger] base64_encoded(self@.cipher.push(':') + self@.password)[i],
                ),
            percent_decoded(percent_encoded(self@.name)) == Some(self@.name),
            encoded_text(percent_encoded(self@.name)),
            self@.plugin is Some ==> match self@.plugin_opts {
                Some(o) => options_encodable(o),
                None => true,
            },
    {
        let mut secret = chars_of(self.cipher.as_str());
        secret.push(':');
        push_all(&mut secret, &chars_of(self.password.as_str()));
        let cred = base64encode(string_of(&secret));
        let mut out = chars_of("ss://");
        push_all(&mut out, &chars_of(cred.as_str()));
        out.push('@');
        let server = chars_of(self.server.as_str());
        if has_char(&server, ':') {
            out.push('[');
            push_all(&mut out, &server);
            out.push(']');
        } else {
            push_all(&mut out, &server);
        }
        out.push(':');
        push_all(&mut out, &dec_chars(self.port as u64));
        match &self.plugin {
            Some(p) => {
                push_all(&mut out, &chars_of("?plugin="));
                push_all(&mut out, &chars_of(p.as_str()));
                match &self.plugin_opts {
                    Some(o) => push_all(&mut out, &options_text(o)),
                    None => {},
                }
            },
            None => {},
        }
        out.push('#');
        let name = url_encode(&chars_of(self.name.as_str()));
        push_all(&mut out, &name);
        assert(secret@ =~= self.cipher@.push(':') + self.password@);
        out
    }
}

fn options_text(o: &Vec<(String, String)>) -> (r: Vec<char>)
    ensures
        r@ == opts_text(pairs_view(o@)),
        options_encodable(pairs_view(o@)),
{
    let mut r: Vec<char> = Vec::new();
    let mut i: usize = o.len();
    while i > 0
        invariant
            i <= o.len(),
            r@ == opts_text(pairs_view(o@).subrange(i as int, o.len() as int)),
            forall|k: int|
                i <= k < o.len() ==> percent_decoded(percent_encoded(kv_text(#[trigger] pairs_view(o@)[k])))
                    == Some(kv_text(pairs_view(o@)[k])) && encoded_text(
                    percent_encoded(kv_text(pairs_view(o@)[k])),
                ),
        decreases i,
    {
        i = i - 1;
        let mut kv = chars_of(o[i].0.as_str());
        kv.push('=');
        push_all(&mut kv, &chars_of(o[i].1.as_str()));
        assert(kv@ == kv_text(pairs_view(o@)[i as int]));
        let mut piece: Vec<char> = Vec::new();
        piece.push(';');
        push_all(&mut piece, &url_encode(&kv));
        push_all(&mut piece, &r);
        let ghost s = pairs_view(o@).subrange(i as int, o.len() as int);
        assert(s.drop_first() =~= pairs_view(o@).subrange(i + 1, o.len() as int));
        r = piece;
    }
    assert(pairs_view(o@).subrange(0, o.len() as int) =~= pairs_view(o@));
    r
}

} // verus!

verus! {

/// Characters that percent-encoding writes.
pub open spec fn encoded_text(s: Seq<char>) -> bool {
    forall|i: int| 0 <= i < s.len() ==> is_unreserved(#[trigger] s[i]) || s[i] == '%'
}

pub open spec fn kv_text(p: (Seq<char>, Seq<char>)) -> Seq<char> {
    p.0.push('=') + p.1
}

/// Percent-encoding reads back each option and writes none of the separators.
pub open spec fn options_encodable(o: Seq<(Seq<char>, Seq<char>)>) -> bool {
    forall|k: int|
        0 <= k < o.len() ==> percent_decoded(percent_encoded(kv_text(#[trigger] o[k]))) == Some(
            kv_text(o[k]),
        ) && encoded_text(percent_encoded(kv_text(o[k])))
}

/// A node that an `ss://` link can carry whole: it has a name, the cipher holds no `:`,
/// the server no `@`, `?` or `#` (and is not itself wrapped in brackets unless it holds a
/// colon), the plugin no `#`, `&` or `;`, each option key no `=`, options come with a
/// plugin, and a list of options is not empty.
pub open spec fn ss_link_ready(v: SSView) -> bool {
    &&& v.name.len() > 0
    &&& no_char(v.cipher, ':')
    &&& no_char(v.server, '@') && no_char(v.server, '?') && no_char(v.server, '#')
    &&& no_char(v.server, ':') ==> !(v.server.len() >= 2 && v.server[0] == '[' && v.server.last()
        == ']')
    &&& match v.plugin {
        None => v.plugin_opts is None,
        Some(p) => no_char(p, '#') && no_char(p, '&') && no_char(p, ';') && match v.plugin_opts {
            None => true,
            Some(o) => o.len() > 0 && forall|k: int| 0 <= k < o.len() ==> no_char(#[trigger] o[k].0, '='),
        },
    }
}

proof fn lemma_encoded_no_char(s: Seq<char>, c: char)
    requires
        encoded_text(s),
        c == '#' || c == '&' || c == ';' || c == '?' || c == '@' || c == ':' || c == '=' || c
            == ',' || c == '/',
    ensures
        no_char(s, c),
{
    assert forall|i: int| 0 <= i < s.len() implies s[i] != c by {
        assert(is_unreserved(s[i]) || s[i] == '%');
    }
}

pub open spec fn encoded_options(o: Seq<(Seq<char>, Seq<char>)>) -> Seq<Seq<char>> {
    o.map_values(|p: (Seq<char>, Seq<char>)| percent_encoded(kv_text(p)))
}

proof fn lemma_opts_text_no_char(o: Seq<(Seq<char>, Seq<char>)>, c: char)
    requires
        options_encodable(o),
        c == '#' || c == '&' || c == '?' || c == '@',
    ensures
        no_char(opts_text(o), c),
    decreases o.len(),
{
    if o.len() > 0 {
        let rest = o.drop_first();
        assert forall|k: int| 0 <= k < rest.len() implies percent_decoded(
            percent_encoded(kv_text(#[trigger] rest[k])),
        ) == Some(kv_text(rest[k])) && encoded_text(percent_encoded(kv_text(rest[k]))) by {
            assert(rest[k] == o[k + 1]);
        }
        lemma_opts_text_no_char(rest, c);
        lemma_encoded_no_char(percent_encoded(kv_text(o[0])), c);
        lemma_no_char_concat(seq![';'], percent_encoded(kv_text(o[0])), c);
        lemma_no_char_concat(seq![';'] + percent_encoded(kv_text(o[0])), opts_text(rest), c);
    }
}

proof fn lemma_opts_pieces(e: Seq<char>, o: Seq<(Seq<char>, Seq<char>)>)
    requires
        no_char(e, ';'),
        options_encodable(o),
    ensures
        split_all(e + opts_text(o), ';') == seq![e] + encoded_options(o),
    decreases o.len(),
{
    if o.len() == 0 {
        assert(e + opts_text(o) =~= e);
        crate::text::lemma_first_none(e, ';');
        assert(encoded_options(o) =~= Seq::<Seq<char>>::empty());
        assert(seq![e] + encoded_options(o) =~= seq![e]);
    } else {
        let rest = o.drop_first();
        let e1 = percent_encoded(kv_text(o[0]));
        assert forall|k: int| 0 <= k < rest.len() implies percent_decoded(
            percent_encoded(kv_text(#[trigger] rest[k])),
        ) == Some(kv_text(rest[k])) && encoded_text(percent_encoded(kv_text(rest[k]))) by {
            assert(rest[k] == o[k + 1]);
        }
        lemma_encoded_no_char(e1, ';');
        lemma_opts_pieces(e1, rest);
        assert(e + opts_text(o) =~= e.push(';') + (e1 + opts_text(rest)));
        crate::text::lemma_split_all_concat(e, ';', e1 + opts_text(rest));
        assert(encoded_options(o) =~= seq![e1] + encoded_options(rest));
        assert(seq![e] + (seq![e1] + encoded_options(rest)) =~= seq![e] + encoded_options(o));
    }
}

proof fn lemma_options_read_back(o: Seq<(Seq<char>, Seq<char>)>)
    requires
        options_encodable(o),
        forall|k: int| 0 <= k < o.len() ==> no_char(#[trigger] o[k].0, '='),
    ensures
        plugin_options(encoded_options(o)) == o,
    decreases o.len(),
{
    if o.len() > 0 {
        let rest = o.drop_first();
        assert forall|k: int| 0 <= k < rest.len() implies percent_decoded(
            percent_encoded(kv_text(#[trigger] rest[k])),
        ) == Some(kv_text(rest[k])) && encoded_text(percent_encoded(kv_text(rest[k]))) by {
            assert(rest[k] == o[k + 1]);
        }
        assert forall|k: int| 0 <= k < rest.len() implies no_char(#[trigger] rest[k].0, '=') by {
            assert(rest[k] == o[k + 1]);
        }
        lemma_options_read_back(rest);
        let pieces = encoded_options(o);
        assert(pieces.drop_first() =~= encoded_options(rest));
        assert(no_char(o[0].0, '='));
        crate::text::lemma_split_first_concat(o[0].0, '=', o[0].1);
        assert(seq![(o[0].0, o[0].1)] + rest =~= o);
    }
}

pub proof fn lemma_authority_read_back(server: Seq<char>, port: u16)
    requires
        no_char(server, ':') ==> !(server.len() >= 2 && server[0] == '[' && server.last() == ']'),
    ensures
        authority(write_authority(server, port)) == Some((server, dec(port as nat))),
        parse_u16(dec(port as nat)) == Some(port),
{
    crate::text::lemma_dec_no_char(port as nat, ':');
    crate::text::lemma_parse_dec(port);
    if no_char(server, ':') {
        crate::text::lemma_split_last_concat(server, ':', dec(port as nat));
    } else {
        let h = seq!['['].add(server).push(']');
        assert(seq!['['].add(server).push(']').push(':') + dec(port as nat) =~= h.push(':') + dec(
            port as nat,
        ));
        crate::text::lemma_split_last_concat(h, ':', dec(port as nat));
        assert(h.subrange(1, h.len() - 1) =~= server);
    }
}

pub proof fn lemma_authority_no_char(server: Seq<char>, port: u16, c: char)
    requires
        no_char(server, c),
        c == '#' || c == '@' || c == '?' || c == '&',
    ensures
        no_char(write_authority(server, port), c),
{
    crate::text::lemma_dec_no_char(port as nat, c);
    if no_char(server, ':') {
        lemma_no_char_concat(server.push(':'), dec(port as nat), c);
    } else {
        let h = seq!['['].add(server).push(']').push(':');
        assert forall|i: int| 0 <= i < h.len() implies h[i] != c by {
            if 1 <= i < server.len() + 1 {
                assert(h[i] == server[i - 1]);
            }
        }
        lemma_no_char_concat(h, dec(port as nat), c);
    }
}

proof fn lemma_b64_no_char(t: Seq<char>, c: char)
    requires
        forall|i: int| 0 <= i < t.len() ==> is_standard_b64_char(#[trigger] t[i]),
        c == '#' || c == '@' || c == '?' || c == '&' || c == ':',
    ensures
        no_char(t, c),
{
    assert forall|i: int| 0 <= i < t.len() implies t[i] != c by {
        assert(is_standard_b64_char(t[i]));
    }
}

proof fn lemma_plugin_query(p: Seq<char>, opts: Option<Seq<(Seq<char>, Seq<char>)>>)
    requires
        no_char(p, '#') && no_char(p, '&') && no_char(p, ';'),
        match opts {
            None => true,
            Some(o) => o.len() > 0 && options_encodable(o) && forall|k: int|
                0 <= k < o.len() ==> no_char(#[trigger] o[k].0, '='),
        },
    ensures
        ({
            let q = "plugin="@ + p + match opts {
                None => seq![],
                Some(o) => opts_text(o),
            };
            no_char(q, '#') && plugin_of(Some(q)) == (Some(p), opts)
        }),
{
    reveal_strlit("plugin=");
    reveal_strlit("plugin");
    let ot = match opts {
        None => Seq::<char>::empty(),
        Some(o) => opts_text(o),
    };
    let q = "plugin="@ + p + ot;
    match opts {
        None => {},
        Some(o) => {
            lemma_opts_text_no_char(o, '#');
            lemma_opts_text_no_char(o, '&');
        },
    }
    assert(no_char(ot, '#'));
    assert(no_char(ot, '&'));
    assert(no_char("plugin="@, '#'));
    assert(no_char("plugin="@, '&'));
    lemma_no_char_concat("plugin="@, p, '#');
    lemma_no_char_concat("plugin="@ + p, ot, '#');
    lemma_no_char_concat("plugin="@, p, '&');
    lemma_no_char_concat("plugin="@ + p, ot, '&');
    crate::text::lemma_first_none(q, '&');
    assert(no_char("plugin"@, '='));
    assert(q =~= "plugin"@.push('=') + (p + ot));
    crate::text::lemma_split_first_concat("plugin"@, '=', p + ot);
    let pieces = split_all(q, '&');
    assert(pieces =~= seq![q]);
    assert(pieces.drop_last() =~= Seq::<Seq<char>>::empty());
    assert(pieces.last() == q);
    assert(crate::protocol::link::entries_of(pieces.drop_last()) =~= Seq::<
        (Seq<char>, Seq<char>),
    >::empty());
    assert(crate::protocol::link::query_entries(q) =~= seq![("plugin"@, p + ot)]);
    let e = crate::protocol::link::query_entries(q);
    assert(e.drop_last() =~= Seq::<(Seq<char>, Seq<char>)>::empty());
    assert(query_get(q, "plugin"@) == Some(p + ot));
    match opts {
        None => {
            assert(p + ot =~= p);
            crate::text::lemma_first_none(p, ';');
        },
        Some(o) => {
            lemma_opts_pieces(p, o);
            let all = seq![p] + encoded_options(o);
            assert(all.subrange(1, all.len() as int) =~= encoded_options(o));
            lemma_options_read_back(o);
        },
    }
}

/// The decoding of a written link gives back the node.
#[verifier::rlimit(50)]
proof fn lemma_ss_round_trip(v: SSView)
    requires
        ss_link_ready(v),
        base64_decoded(base64_encoded(v.cipher.push(':') + v.password)) == Ok::<
            Seq<char>,
            DecodeError,
        >(v.cipher.push(':') + v.password),
        forall|i: int|
            0 <= i < base64_encoded(v.cipher.push(':') + v.password).len() ==> is_standard_b64_char(
                #[trigger] base64_encoded(v.cipher.push(':') + v.password)[i],
            ),
        percent_decoded(percent_encoded(v.name)) == Some(v.name),
        encoded_text(percent_encoded(v.name)),
        match v.plugin_opts {
            Some(o) => options_encodable(o),
            None => true,
        },
    ensures
        ss_decode(ss_encode(v)) == Some(v),
{
    let cred = base64_encoded(v.cipher.push(':') + v.password);
    let auth = write_authority(v.server, v.port);
    let pt = plugin_text(v.plugin, v.plugin_opts);
    let en = percent_encoded(v.name);
    let link = ss_encode(v);
    let pre = cred.push('@') + auth + pt;
    let body = pre.push('#') + en;
    assert(link =~= "ss://"@ + body);
    assert(link.subrange(0, ("ss://"@).len() as int) =~= "ss://"@);
    assert(after_prefix(link, "ss://"@) =~= body);
    lemma_b64_no_char(cred, '#');
    lemma_b64_no_char(cred, '@');
    lemma_b64_no_char(cred, '?');
    lemma_b64_no_char(cred, ':');
    lemma_authority_no_char(v.server, v.port, '#');
    lemma_authority_no_char(v.server, v.port, '@');
    lemma_authority_no_char(v.server, v.port, '?');
    lemma_no_char_concat(cred, seq!['@'], '#');
    assert(cred.push('@') =~= cred + seq!['@']);
    lemma_no_char_concat(cred, seq!['@'], '?');
    lemma_no_char_concat(cred.push('@'), auth, '#');
    lemma_no_char_concat(cred.push('@'), auth, '?');
    reveal_strlit("?plugin=");
    reveal_strlit("plugin=");
    reveal_strlit("plugin");
    let main = cred.push('@') + auth;
    let query: Option<Seq<char>> = match v.plugin {
        None => None,
        Some(p) => Some("plugin="@ + p + match v.plugin_opts {
            None => seq![],
            Some(o) => opts_text(o),
        }),
    };
    match v.plugin {
        None => {
            assert(pt =~= Seq::<char>::empty());
            assert(pre =~= main);
            crate::text::lemma_first_none(pre, '?');
        },
        Some(p) => {
            let q = query.unwrap();
            lemma_plugin_query(p, v.plugin_opts);
            assert(pt =~= seq!['?'] + q);
            assert(pre =~= main.push('?') + q);
            crate::text::lemma_split_first_concat(main, '?', q);
            assert(no_char(pt, '#')) by {
                lemma_no_char_concat(seq!['?'], q, '#');
            }
        },
    }
    assert(no_char(pre, '#')) by {
        if v.plugin is None {
        } else {
            lemma_no_char_concat(main, pt, '#');
        }
    }
    crate::text::lemma_split_first_concat(pre, '#', en);
    crate::text::lemma_split_last_concat(cred, '@', auth);
    lemma_authority_read_back(v.server, v.port);
    crate::text::lemma_split_first_concat(v.cipher, ':', v.password);
    assert(plugin_of(query) == (v.plugin, v.plugin_opts));
    let decoded = ss_body(pre).unwrap();
    assert(decoded.server == v.server);
    assert(named(decoded, Some(en)) == v);
}

} // verus!
