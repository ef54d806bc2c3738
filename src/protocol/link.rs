//! Pieces shared by the link codecs: queries, authorities and display names.
use vstd::prelude::*;
use crate::percent::decoded_or_same;
use crate::percent::url_decode_or_same;
use crate::text::chars_of;
use crate::text::dec;
use crate::text::dec_chars;
use crate::text::eq_chars;
use crate::text::no_char;
use crate::text::push_all;
use crate::text::slice_chars;
use crate::text::split_all;
use crate::text::split_all_at;
use crate::text::split_first;
use crate::text::split_first_at;
use crate::text::split_last;
use crate::text::split_last_at;
use crate::text::views;

verus! {

pub type Entry = (Vec<char>, Vec<char>);

pub open spec fn entry_views(e: Seq<Entry>) -> Seq<(Seq<char>, Seq<char>)> {
    e.map_values(|p: Entry| (p.0@, p.1@))
}

pub open spec fn opt_view(o: Option<Vec<char>>) -> Option<Seq<char>> {
    match o {
        Some(v) => Some(v@),
        None => None,
    }
}

pub open spec fn opt_str(o: Option<String>) -> Option<Seq<char>> {
    match o {
        Some(v) => Some(v@),
        None => None,
    }
}

/// The `key=value` pairs among `pieces`, each split at its first `=`.
pub open spec fn entries_of(pieces: Seq<Seq<char>>) -> Seq<(Seq<char>, Seq<char>)>
    decreases pieces.len(),
{
    if pieces.len() == 0 {
        seq![]
    } else {
        let rest = entries_of(pieces.drop_last());
        match split_first(pieces.last(), '=') {
            Some(kv) => rest.push(kv),
            None => rest,
        }
    }
}

/// The pairs of a query string: its `&`-separated pieces that hold a `=`.
pub open spec fn query_entries(q: Seq<char>) -> Seq<(Seq<char>, Seq<char>)> {
    entries_of(split_all(q, '&'))
}

/// The value of the last pair with `key`, as a map filled in order keeps it.
pub open spec fn lookup(e: Seq<(Seq<char>, Seq<char>)>, key: Seq<char>) -> Option<Seq<char>>
    decreases e.len(),
{
    if e.len() == 0 {
        None
    } else if e.last().0 == key {
        Some(e.last().1)
    } else {
        lookup(e.drop_last(), key)
    }
}

pub open spec fn query_get(q: Seq<char>, key: Seq<char>) -> Option<Seq<char>> {
    lookup(query_entries(q), key)
}

/// `h` without one pair of surrounding square brackets.
pub open spec fn unbracket(h: Seq<char>) -> Seq<char> {
    if h.len() >= 2 && h[0] == '[' && h.last() == ']' {
        h.subrange(1, h.len() - 1)
    } else {
        h
    }
}

/// Host and port text of `host:port`, split at the last colon; brackets round an IPv6
/// host are taken off.
pub open spec fn authority(a: Seq<char>) -> Option<(Seq<char>, Seq<char>)> {
    match split_last(a, ':') {
        Some(p) => Some((unbracket(p.0), p.1)),
        None => None,
    }
}

/// `server:port`, with brackets round a host that holds a colon.
pub open spec fn write_authority(server: Seq<char>, port: u16) -> Seq<char> {
    if no_char(server, ':') {
        server.push(':') + dec(port as nat)
    } else {
        seq!['['].add(server).push(']').push(':') + dec(port as nat)
    }
}

/// The display name of a link: its fragment percent-decoded (or as it stands where that
/// fails); where that is empty, the server followed by the port.
pub open spec fn link_name(frag: Option<Seq<char>>, server: Seq<char>, port: u16) -> Seq<char> {
    let n = match frag {
        Some(f) => decoded_or_same(f),
        None => seq![],
    };
    if n.len() == 0 {
        server + dec(port as nat)
    } else {
        n
    }
}

/// `s` starts with `prefix`.
pub open spec fn has_prefix(s: Seq<char>, prefix: Seq<char>) -> bool {
    prefix.len() <= s.len() && s.subrange(0, prefix.len() as int) == prefix
}

/// What follows `prefix` in `s`.
pub open spec fn after_prefix(s: Seq<char>, prefix: Seq<char>) -> Seq<char> {
    s.subrange(prefix.len() as int, s.len() as int)
}

pub fn starts_with(s: &Vec<char>, prefix: &str) -> (r: Option<Vec<char>>)
    ensures
        r is Some == has_prefix(s@, prefix@),
        r is Some ==> r.unwrap()@ == after_prefix(s@, prefix@),
{
    let p = chars_of(prefix);
    if p.len() > s.len() {
        return None;
    }
    let head = slice_chars(s, 0, p.len());
    if eq_chars(&head, &p) {
        Some(slice_chars(s, p.len(), s.len()))
    } else {
        None
    }
}

pub fn parse_query(q: &Vec<char>) -> (r: Vec<Entry>)
    ensures
        entry_views(r@) == query_entries(q@),
{
    let pieces = split_all_at(q, '&');
    let mut r: Vec<Entry> = Vec::new();
    let mut i: usize = 0;
    while i < pieces.len()
        invariant
            i <= pieces.len(),
            views(pieces@) == split_all(q@, '&'),
            entry_views(r@) == entries_of(views(pieces@).subrange(0, i as int)),
        decreases pieces.len() - i,
    {
        let ghost before = views(pieces@).subrange(0, i as int);
        let ghost now = views(pieces@).subrange(0, i + 1);
        assert(now.drop_last() =~= before);
        assert(now.last() == pieces@[i as int]@);
        match split_first_at(&pieces[i], '=') {
            Some(kv) => {
                r.push(kv);
                assert(entry_views(r@) =~= entry_views(r@).drop_last().push((kv.0@, kv.1@)));
            },
            None => {},
        }
        i = i + 1;
        assert(entry_views(r@) =~= entries_of(views(pieces@).subrange(0, i as int)));
    }
    assert(views(pieces@).subrange(0, pieces.len() as int) =~= views(pieces@));
    r
}

pub fn query_value(e: &Vec<Entry>, key: &str) -> (r: Option<Vec<char>>)
    ensures
        opt_view(r) == lookup(entry_views(e@), key@),
{
    let k = chars_of(key);
    let mut r: Option<Vec<char>> = None;
    let mut i: usize = 0;
    while i < e.len()
        invariant
            i <= e.len(),
            k@ == key@,
            opt_view(r) == lookup(entry_views(e@).subrange(0, i as int), key@),
        decreases e.len() - i,
    {
        let ghost now = entry_views(e@).subrange(0, i + 1);
        assert(now.drop_last() =~= entry_views(e@).subrange(0, i as int));
        if eq_chars(&e[i].0, &k) {
            r = Some(slice_chars(&e[i].1, 0, e[i].1.len()));
            assert(e[i as int].1@.subrange(0, e[i as int].1@.len() as int) =~= e[i as int].1@);
        }
        i = i + 1;
    }
    assert(entry_views(e@).subrange(0, e.len() as int) =~= entry_views(e@));
    r
}

pub fn split_authority(a: &Vec<char>) -> (r: Option<(Vec<char>, Vec<char>)>)
    ensures
        match r {
            Some(p) => authority(a@) == Some((p.0@, p.1@)),
            None => authority(a@) is None,
        },
{
    match split_last_at(a, ':') {
        None => None,
        Some((h, p)) => {
            if h.len() >= 2 && h[0] == '[' && h[h.len() - 1] == ']' {
                Some((slice_chars(&h, 1, h.len() - 1), p))
            } else {
                Some((h, p))
            }
        },
    }
}

pub fn name_of_link(frag: &Option<Vec<char>>, server: &Vec<char>, port: u16) -> (r: Vec<char>)
    ensures
        r@ == link_name(opt_view(*frag), server@, port),
{
    let n = match frag {
        Some(f) => url_decode_or_same(f),
        None => Vec::new(),
    };
    if n.len() == 0 {
        let mut r = slice_chars(server, 0, server.len());
        assert(server@.subrange(0, server@.len() as int) =~= server@);
        let d = dec_chars(port as u64);
        push_all(&mut r, &d);
        r
    } else {
        n
    }
}

/// The text before the first `c` of `s` (all of `s` where there is none), and the text
/// after it, if any.
pub fn cut_first(s: &Vec<char>, c: char) -> (r: (Vec<char>, Option<Vec<char>>))
    ensures
        match split_first(s@, c) {
            Some(p) => r.0@ == p.0 && opt_view(r.1) == Some(p.1),
            None => r.0@ == s@ && r.1 is None,
        },
{
    match split_first_at(s, c) {
        Some((a, b)) => (a, Some(b)),
        None => {
            let r = slice_chars(s, 0, s.len());
            assert(s@.subrange(0, s.len() as int) =~= s@);
            (r, None)
        },
    }
}

} // verus!
