//! Proxy kinds, their records, and the dispatch from links to records.
use vstd::prelude::*;
use crate::text::chars_of;
use crate::text::push_all;
use crate::text::string_of;
use crate::protocol::hysteria::same_hysteria;
use crate::protocol::hysteria::Hysteria;
use crate::protocol::hysteria::HysteriaView;
use crate::protocol::hysteria2::hysteria2_decode;
use crate::protocol::hysteria2::hysteria2_encode;
use crate::protocol::hysteria2::Hysteria2;
use crate::protocol::hysteria2::Hysteria2View;
use crate::protocol::link::has_prefix;
use crate::protocol::link::starts_with;
use crate::protocol::ss::ss_decode;
use crate::protocol::ss::ss_encode;
use crate::protocol::ss::SSView;
use crate::protocol::ss::SS;
use crate::protocol::ssr::ssr_decode;
use crate::protocol::ssr::Ssr;
use crate::protocol::ssr::SsrView;
use crate::protocol::trojan::trojan_decode;
use crate::protocol::trojan::Trojan;
use crate::protocol::trojan::TrojanView;
use crate::protocol::vless::vless_decode;
use crate::protocol::vless::Vless;
use crate::protocol::vless::VlessView;
use crate::protocol::vmess::vmess_decode;
use crate::protocol::vmess::Vmess;
use crate::protocol::vmess::VmessView;

pub mod hysteria;
pub mod hysteria2;
pub mod link;
pub mod socks5;
pub mod ss;
pub mod ssr;
pub mod trojan;
pub mod vless;
pub mod vmess;

verus! {

/// The protocols that a proxy may speak, in the order used for sorting.
#[derive(Debug, Clone, Copy, PartialEq, Eq, Hash, PartialOrd, Ord, Structural)]
pub enum ProxyType {
    SS,
    SSR,
    Vmess,
    Vless,
    Trojan,
    Hysteria2,
    Hysteria,
    WireGuard,
    Unknown,
}

impl ProxyType {
    /// Position of the kind in the sorting order.
    pub open spec fn rank_spec(self) -> nat {
        match self {
            ProxyType::SS => 0,
            ProxyType::SSR => 1,
            ProxyType::Vmess => 2,
            ProxyType::Vless => 3,
            ProxyType::Trojan => 4,
            ProxyType::Hysteria2 => 5,
            ProxyType::Hysteria => 6,
            ProxyType::WireGuard => 7,
            ProxyType::Unknown => 8,
        }
    }

    /// The canonical tag of the kind in configuration documents.
    pub open spec fn tag_spec(self) -> Seq<char> {
        match self {
            ProxyType::SS => "ss"@,
            ProxyType::SSR => "ssr"@,
            ProxyType::Vmess => "vmess"@,
            ProxyType::Vless => "vless"@,
            ProxyType::Trojan => "trojan"@,
            ProxyType::Hysteria2 => "hysteria2"@,
            ProxyType::Hysteria => "hysteria"@,
            ProxyType::WireGuard => "wireguard"@,
            ProxyType::Unknown => "unknown"@,
        }
    }

    pub fn rank(&self) -> (r: u8)
        ensures
            r as nat == self.rank_spec(),
    {
        match self {
            ProxyType::SS => 0,
            ProxyType::SSR => 1,
            ProxyType::Vmess => 2,
            ProxyType::Vless => 3,
            ProxyType::Trojan => 4,
            ProxyType::Hysteria2 => 5,
            ProxyType::Hysteria => 6,
            ProxyType::WireGuard => 7,
            ProxyType::Unknown => 8,
        }
    }

    pub fn tag(&self) -> (r: String)
        ensures
            r@ == self.tag_spec(),
    {
        let s = match self {
            ProxyType::SS => "ss",
            ProxyType::SSR => "ssr",
            ProxyType::Vmess => "vmess",
            ProxyType::Vless => "vless",
            ProxyType::Trojan => "trojan",
            ProxyType::Hysteria2 => "hysteria2",
            ProxyType::Hysteria => "hysteria",
            ProxyType::WireGuard => "wireguard",
            ProxyType::Unknown => "unknown",
        };
        string_of(&chars_of(s))
    }
}

/// WebSocket transport options.
#[derive(Debug, Clone, PartialEq, Eq)]
pub struct WSOptions {
    pub path: Option<String>,
    pub headers: Option<Vec<(String, String)>>,
}

/// Reality options of a TLS transport.
#[derive(Debug, Clone, PartialEq, Eq)]
pub struct RealtyOptions {
    pub public_key: Option<String>,
    pub short_id: Option<String>,
}

/// gRPC transport options.
#[derive(Debug, Clone, PartialEq, Eq)]
pub struct GrpcOptions {
    pub grpc_service_name: Option<String>,
}

pub struct WSOptionsView {
    pub path: Option<Seq<char>>,
    pub headers: Option<Seq<(Seq<char>, Seq<char>)>>,
}

impl View for WSOptions {
    type V = WSOptionsView;

    open spec fn view(&self) -> WSOptionsView {
        WSOptionsView {
            path: crate::protocol::link::opt_str(self.path),
            headers: crate::protocol::ss::opt_pairs(self.headers),
        }
    }
}

impl View for GrpcOptions {
    type V = Option<Seq<char>>;

    open spec fn view(&self) -> Option<Seq<char>> {
        crate::protocol::link::opt_str(self.grpc_service_name)
    }
}

pub open spec fn opt_ws(o: Option<WSOptions>) -> Option<WSOptionsView> {
    match o {
        Some(w) => Some(w@),
        None => None,
    }
}

pub open spec fn opt_grpc(o: Option<GrpcOptions>) -> Option<Option<Seq<char>>> {
    match o {
        Some(g) => Some(g@),
        None => None,
    }
}

/// WebSocket options with `path` and, where there is a host, a `host` header.
pub open spec fn ws_options(path: Option<Seq<char>>, host: Option<Seq<char>>) -> WSOptionsView {
    WSOptionsView {
        path,
        headers: Some(
            match host {
                Some(h) => seq![("host"@, h)],
                None => seq![],
            },
        ),
    }
}

pub fn make_ws_options(path: Option<Vec<char>>, host: Option<Vec<char>>) -> (r: WSOptions)
    ensures
        r@ == ws_options(crate::protocol::link::opt_view(path), crate::protocol::link::opt_view(host)),
{
    let mut headers: Vec<(String, String)> = Vec::new();
    match host {
        Some(h) => {
            let k = string_of(&chars_of("host"));
            let v = string_of(&h);
            headers.push((k, v));
            assert(crate::protocol::ss::pairs_view(headers@) =~= seq![(k@, v@)]);
        },
        None => {
            assert(crate::protocol::ss::pairs_view(headers@) =~= Seq::<(Seq<char>, Seq<char>)>::empty());
        },
    }
    let path = match path {
        Some(p) => Some(string_of(&p)),
        None => None,
    };
    WSOptions { path, headers: Some(headers) }
}

/// A link or document that no codec accepts, with a message saying why.
#[derive(Debug, Clone)]
pub struct UnsupportedLinkError {
    message: String,
}

impl UnsupportedLinkError {
    /// An error whose message is `what` followed by `detail`.
    pub fn new(what: &str, detail: &Vec<char>) -> (r: UnsupportedLinkError)
        ensures
            r.message_view() == what@ + detail@,
    {
        let mut m = chars_of(what);
        push_all(&mut m, detail);
        UnsupportedLinkError { message: string_of(&m) }
    }

    /// The text of the message.
    pub closed spec fn message_view(&self) -> Seq<char> {
        self.message@
    }

    /// The message.
    pub fn to_string(&self) -> (r: String)
        ensures
            r@ == self.message_view(),
    {
        self.message.clone()
    }
}

} // verus!

verus! {

pub open spec fn same_ss(a: SSView, b: SSView) -> bool {
    a.server == b.server && a.port == b.port && a.password == b.password
}

pub open spec fn same_ssr(a: SsrView, b: SsrView) -> bool {
    a.server == b.server && a.port == b.port && a.password == b.password
}

pub open spec fn same_vmess(a: VmessView, b: VmessView) -> bool {
    a.server == b.server && a.port == b.port && a.uuid == b.uuid
}

pub open spec fn same_vless(a: VlessView, b: VlessView) -> bool {
    a.server == b.server && a.port == b.port && a.uuid == b.uuid
}

pub open spec fn same_trojan(a: TrojanView, b: TrojanView) -> bool {
    a.server == b.server && a.port == b.port && a.password == b.password
}

pub open spec fn same_hysteria2(a: Hysteria2View, b: Hysteria2View) -> bool {
    a.server == b.server && a.password == b.password && a.port == b.port
}

impl PartialEq for SS {
    fn eq(&self, other: &SS) -> (r: bool) {
        self.server.eq(&other.server) && self.port == other.port && self.password.eq(&other.password)
    }
}

impl vstd::std_specs::cmp::PartialEqSpecImpl for SS {
    open spec fn obeys_eq_spec() -> bool {
        true
    }

    open spec fn eq_spec(&self, other: &SS) -> bool {
        same_ss(self@, other@)
    }
}

impl PartialEq for Ssr {
    fn eq(&self, other: &Ssr) -> (r: bool) {
        self.server.eq(&other.server) && self.port == other.port && self.password.eq(&other.password)
    }
}

impl vstd::std_specs::cmp::PartialEqSpecImpl for Ssr {
    open spec fn obeys_eq_spec() -> bool {
        true
    }

    open spec fn eq_spec(&self, other: &Ssr) -> bool {
        same_ssr(self@, other@)
    }
}

impl PartialEq for Vmess {
    fn eq(&self, other: &Vmess) -> (r: bool) {
        self.server.eq(&other.server) && self.port == other.port && self.uuid.eq(&other.uuid)
    }
}

impl vstd::std_specs::cmp::PartialEqSpecImpl for Vmess {
    open spec fn obeys_eq_spec() -> bool {
        true
    }

    open spec fn eq_spec(&self, other: &Vmess) -> bool {
        same_vmess(self@, other@)
    }
}

impl PartialEq for Vless {
    fn eq(&self, other: &Vless) -> (r: bool) {
        self.server.eq(&other.server) && self.port == other.port && self.uuid.eq(&other.uuid)
    }
}

impl vstd::std_specs::cmp::PartialEqSpecImpl for Vless {
    open spec fn obeys_eq_spec() -> bool {
        true
    }

    open spec fn eq_spec(&self, other: &Vless) -> bool {
        same_vless(self@, other@)
    }
}

impl PartialEq for Trojan {
    fn eq(&self, other: &Trojan) -> (r: bool) {
        self.server.eq(&other.server) && self.port == other.port && self.password.eq(&other.password)
    }
}

impl vstd::std_specs::cmp::PartialEqSpecImpl for Trojan {
    open spec fn obeys_eq_spec() -> bool {
        true
    }

    open spec fn eq_spec(&self, other: &Trojan) -> bool {
        same_trojan(self@, other@)
    }
}

impl PartialEq for Hysteria2 {
    fn eq(&self, other: &Hysteria2) -> (r: bool) {
        self.server.eq(&other.server) && self.password.eq(&other.password) && self.port == other.port
    }
}

impl vstd::std_specs::cmp::PartialEqSpecImpl for Hysteria2 {
    open spec fn obeys_eq_spec() -> bool {
        true
    }

    open spec fn eq_spec(&self, other: &Hysteria2) -> bool {
        same_hysteria2(self@, other@)
    }
}

/// A node of any kind: the kind is the variant, the record its content.
#[derive(Debug, Clone)]
pub enum Proxy {
    SS(SS),
    SSR(Ssr),
    Vmess(Vmess),
    Vless(Vless),
    Trojan(Trojan),
    Hysteria2(Hysteria2),
    Hysteria(Hysteria),
}

pub enum ProxyView {
    SS(SSView),
    SSR(SsrView),
    Vmess(VmessView),
    Vless(VlessView),
    Trojan(TrojanView),
    Hysteria2(Hysteria2View),
    Hysteria(HysteriaView),
}

impl View for Proxy {
    type V = ProxyView;

    open spec fn view(&self) -> ProxyView {
        match self {
            Proxy::SS(x) => ProxyView::SS(x@),
            Proxy::SSR(x) => ProxyView::SSR(x@),
            Proxy::Vmess(x) => ProxyView::Vmess(x@),
            Proxy::Vless(x) => ProxyView::Vless(x@),
            Proxy::Trojan(x) => ProxyView::Trojan(x@),
            Proxy::Hysteria2(x) => ProxyView::Hysteria2(x@),
            Proxy::Hysteria(x) => ProxyView::Hysteria(x@),
        }
    }
}

pub open spec fn kind_of(v: ProxyView) -> ProxyType {
    match v {
        ProxyView::SS(_) => ProxyType::SS,
        ProxyView::SSR(_) => ProxyType::SSR,
        ProxyView::Vmess(_) => ProxyType::Vmess,
        ProxyView::Vless(_) => ProxyType::Vless,
        ProxyView::Trojan(_) => ProxyType::Trojan,
        ProxyView::Hysteria2(_) => ProxyType::Hysteria2,
        ProxyView::Hysteria(_) => ProxyType::Hysteria,
    }
}

pub open spec fn name_of(v: ProxyView) -> Seq<char> {
    match v {
        ProxyView::SS(x) => x.name,
        ProxyView::SSR(x) => x.name,
        ProxyView::Vmess(x) => x.name,
        ProxyView::Vless(x) => x.name,
        ProxyView::Trojan(x) => x.name,
        ProxyView::Hysteria2(x) => x.name,
        ProxyView::Hysteria(x) => x.name,
    }
}

pub open spec fn server_of(v: ProxyView) -> Seq<char> {
    match v {
        ProxyView::SS(x) => x.server,
        ProxyView::SSR(x) => x.server,
        ProxyView::Vmess(x) => x.server,
        ProxyView::Vless(x) => x.server,
        ProxyView::Trojan(x) => x.server,
        ProxyView::Hysteria2(x) => x.server,
        ProxyView::Hysteria(x) => x.server,
    }
}

/// The node with its name replaced by `n`.
pub open spec fn with_name(v: ProxyView, n: Seq<char>) -> ProxyView {
    match v {
        ProxyView::SS(x) => ProxyView::SS(SSView { name: n, ..x }),
        ProxyView::SSR(x) => ProxyView::SSR(SsrView { name: n, ..x }),
        ProxyView::Vmess(x) => ProxyView::Vmess(VmessView { name: n, ..x }),
        ProxyView::Vless(x) => ProxyView::Vless(VlessView { name: n, ..x }),
        ProxyView::Trojan(x) => ProxyView::Trojan(TrojanView { name: n, ..x }),
        ProxyView::Hysteria2(x) => ProxyView::Hysteria2(Hysteria2View { name: n, ..x }),
        ProxyView::Hysteria(x) => ProxyView::Hysteria(HysteriaView { name: n, ..x }),
    }
}

/// Two nodes are one node: same kind, and the same identity fields of that kind; the
/// name never counts.
pub open spec fn same_node(a: ProxyView, b: ProxyView) -> bool {
    match (a, b) {
        (ProxyView::SS(x), ProxyView::SS(y)) => same_ss(x, y),
        (ProxyView::SSR(x), ProxyView::SSR(y)) => same_ssr(x, y),
        (ProxyView::Vmess(x), ProxyView::Vmess(y)) => same_vmess(x, y),
        (ProxyView::Vless(x), ProxyView::Vless(y)) => same_vless(x, y),
        (ProxyView::Trojan(x), ProxyView::Trojan(y)) => same_trojan(x, y),
        (ProxyView::Hysteria2(x), ProxyView::Hysteria2(y)) => same_hysteria2(x, y),
        (ProxyView::Hysteria(x), ProxyView::Hysteria(y)) => same_hysteria(x, y),
        _ => false,
    }
}

/// The node that a link describes, by its scheme.
pub open spec fn proxy_decode(link: Seq<char>) -> Option<ProxyView> {
    if has_prefix(link, "ss://"@) {
        match ss_decode(link) {
            Some(x) => Some(ProxyView::SS(x)),
            None => None,
        }
    } else if has_prefix(link, "ssr://"@) {
        match ssr_decode(link) {
            Some(x) => Some(ProxyView::SSR(x)),
            None => None,
        }
    } else if has_prefix(link, "vmess://"@) {
        match vmess_decode(link) {
            Some(x) => Some(ProxyView::Vmess(x)),
            None => None,
        }
    } else if has_prefix(link, "trojan://"@) {
        match trojan_decode(link) {
            Some(x) => Some(ProxyView::Trojan(x)),
            None => None,
        }
    } else if has_prefix(link, "hysteria2://"@) {
        match hysteria2_decode(link) {
            Some(x) => Some(ProxyView::Hysteria2(x)),
            None => None,
        }
    } else if has_prefix(link, "vless://"@) {
        match vless_decode(link) {
            Some(x) => Some(ProxyView::Vless(x)),
            None => None,
        }
    } else {
        None
    }
}

/// The link of a node, for the kinds that can be written as links.
pub open spec fn proxy_encode(v: ProxyView) -> Option<Seq<char>> {
    match v {
        ProxyView::SS(x) => Some(ss_encode(x)),
        ProxyView::Hysteria2(x) => Some(hysteria2_encode(x)),
        _ => None,
    }
}

fn has_scheme(chars: &Vec<char>, scheme: &str) -> (r: bool)
    ensures
        r == has_prefix(chars@, scheme@),
{
    starts_with(chars, scheme).is_some()
}

impl Proxy {
    pub fn proxy_type(&self) -> (r: ProxyType)
        ensures
            r == kind_of(self@),
    {
        match self {
            Proxy::SS(_) => ProxyType::SS,
            Proxy::SSR(_) => ProxyType::SSR,
            Proxy::Vmess(_) => ProxyType::Vmess,
            Proxy::Vless(_) => ProxyType::Vless,
            Proxy::Trojan(_) => ProxyType::Trojan,
            Proxy::Hysteria2(_) => ProxyType::Hysteria2,
            Proxy::Hysteria(_) => ProxyType::Hysteria,
        }
    }

    pub fn get_name(&self) -> (r: &str)
        ensures
            r@ == name_of(self@),
    {
        match self {
            Proxy::SS(x) => x.name.as_str(),
            Proxy::SSR(x) => x.name.as_str(),
            Proxy::Vmess(x) => x.name.as_str(),
            Proxy::Vless(x) => x.name.as_str(),
            Proxy::Trojan(x) => x.name.as_str(),
            Proxy::Hysteria2(x) => x.name.as_str(),
            Proxy::Hysteria(x) => x.name.as_str(),
        }
    }

    pub fn set_name(&mut self, name: &str)
        ensures
            final(self)@ == with_name(old(self)@, name@),
    {
        let n = string_of(&chars_of(name));
        match self {
            Proxy::SS(x) => x.name = n,
            Proxy::SSR(x) => x.name = n,
            Proxy::Vmess(x) => x.name = n,
            Proxy::Vless(x) => x.name = n,
            Proxy::Trojan(x) => x.name = n,
            Proxy::Hysteria2(x) => x.name = n,
            Proxy::Hysteria(x) => x.name = n,
        }
    }

    pub fn get_server(&self) -> (r: &str)
        ensures
            r@ == server_of(self@),
    {
        match self {
            Proxy::SS(x) => x.server.as_str(),
            Proxy::SSR(x) => x.server.as_str(),
            Proxy::Vmess(x) => x.server.as_str(),
            Proxy::Vless(x) => x.server.as_str(),
            Proxy::Trojan(x) => x.server.as_str(),
            Proxy::Hysteria2(x) => x.server.as_str(),
            Proxy::Hysteria(x) => x.server.as_str(),
        }
    }

    /// Reads a link of any supported scheme.
    pub fn from_link(link: String) -> (r: Result<Proxy, UnsupportedLinkError>)
        ensures
            match r {
                Ok(p) => proxy_decode(link@) == Some(p@),
                Err(_) => proxy_decode(link@) is None,
            },
    {
        let chars = chars_of(link.as_str());
        if has_scheme(&chars, "ss://") {
            Ok(Proxy::SS(SS::from_link(link)?))
        } else if has_scheme(&chars, "ssr://") {
            Ok(Proxy::SSR(Ssr::from_link(link)?))
        } else if has_scheme(&chars, "vmess://") {
            Ok(Proxy::Vmess(Vmess::from_link(link)?))
        } else if has_scheme(&chars, "trojan://") {
            Ok(Proxy::Trojan(Trojan::from_link(link)?))
        } else if has_scheme(&chars, "hysteria2://") {
            Ok(Proxy::Hysteria2(Hysteria2::from_link(link)?))
        } else if has_scheme(&chars, "vless://") {
            Ok(Proxy::Vless(Vless::from_link(link)?))
        } else {
            Err(UnsupportedLinkError::new("Unsupported link format: ", &chars))
        }
    }

    /// Writes the node as a link; only Shadowsocks and Hysteria2 nodes can be written.
    pub fn to_link(&self) -> (r: Result<String, UnsupportedLinkError>)
        ensures
            match r {
                Ok(s) => proxy_encode(self@) == Some(s@),
                Err(_) => proxy_encode(self@) is None,
            },
    {
        match self {
            Proxy::SS(x) => Ok(x.to_link()),
            Proxy::Hysteria2(x) => Ok(x.to_link()),
            _ => Err(
                UnsupportedLinkError::new("links are not yet supported for ", &chars_of(self.get_name())),
            ),
        }
    }

    /// The two nodes are one node.
    pub fn same_node(&self, other: &Proxy) -> (r: bool)
        ensures
            r == same_node(self@, other@),
    {
        match (self, other) {
            (Proxy::SS(x), Proxy::SS(y)) => x.eq(y),
            (Proxy::SSR(x), Proxy::SSR(y)) => x.eq(y),
            (Proxy::Vmess(x), Proxy::Vmess(y)) => x.eq(y),
            (Proxy::Vless(x), Proxy::Vless(y)) => x.eq(y),
            (Proxy::Trojan(x), Proxy::Trojan(y)) => x.eq(y),
            (Proxy::Hysteria2(x), Proxy::Hysteria2(y)) => x.eq(y),
            (Proxy::Hysteria(x), Proxy::Hysteria(y)) => x.same_node(y),
            _ => false,
        }
    }
}

impl PartialEq for Proxy {
    fn eq(&self, other: &Proxy) -> (r: bool) {
        self.same_node(other)
    }
}

impl vstd::std_specs::cmp::PartialEqSpecImpl for Proxy {
    open spec fn obeys_eq_spec() -> bool {
        true
    }

    open spec fn eq_spec(&self, other: &Proxy) -> bool {
        same_node(self@, other@)
    }
}

} // verus!
