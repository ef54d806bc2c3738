//! Subscriptions: reading a blob of proxies, removing duplicates, and renaming.
use vstd::prelude::*;
use crate::base64::base64_decoded;
use crate::base64::base64decode;
use crate::protocol::kind_of;
use crate::protocol::name_of;
use crate::protocol::proxy_decode;
use crate::protocol::same_node;
use crate::protocol::Proxy;
use crate::protocol::ProxyView;
use crate::text::chars_le;
use crate::text::chars_lt;
use crate::text::chars_of;
use crate::text::dec;
use crate::text::dec_chars;
use crate::text::eq_chars;
use crate::text::is_digit;
use crate::text::lemma_lt_total;
use crate::text::lemma_lt_transitive;
use crate::text::lt_chars;
use crate::text::push_all;
use crate::text::strip_digits;
use crate::text::strip_digits_chars;
use crate::protocol::with_name;
use crate::text::slice_chars;
use crate::text::split_all;
use crate::text::split_all_at;
use crate::text::string_of;
use crate::text::views;

verus! {

/// Reads subscription contents and tidies the proxies they hold.
#[derive(Debug)]
pub struct SubManager {}

pub open spec fn pviews(v: Seq<Proxy>) -> Seq<ProxyView> {
    v.map_values(|p: Proxy| p@)
}

/// The whitespace of `char::is_whitespace`.
pub open spec fn is_space(c: char) -> bool {
    c == ' ' || ('\t' <= c && c <= '\r') || c == '\u{85}' || c == '\u{a0}' || c == '\u{1680}'
        || ('\u{2000}' <= c && c <= '\u{200a}') || c == '\u{2028}' || c == '\u{2029}' || c
        == '\u{202f}' || c == '\u{205f}' || c == '\u{3000}'
}

/// `s` without whitespace at either end.
pub open spec fn trim(s: Seq<char>) -> Seq<char>
    decreases s.len(),
{
    if s.len() > 0 && is_space(s[0]) {
        trim(s.drop_first())
    } else if s.len() > 0 && is_space(s.last()) {
        trim(s.drop_last())
    } else {
        s
    }
}

/// The proxies of the non-empty lines among `lines`, each trimmed; lines that are no
/// link are skipped.
pub open spec fn links_of(lines: Seq<Seq<char>>) -> Seq<ProxyView>
    decreases lines.len(),
{
    if lines.len() == 0 {
        seq![]
    } else {
        let rest = links_of(lines.drop_first());
        if lines[0].len() == 0 {
            rest
        } else {
            match proxy_decode(trim(lines[0])) {
                Some(p) => seq![p] + rest,
                None => rest,
            }
        }
    }
}

pub open spec fn lines_proxies(text: Seq<char>) -> Seq<ProxyView> {
    links_of(split_all(text, '\n'))
}

/// What a subscription holds: the proxies of its structured document where it is one;
/// else, where the trimmed whole is base64, the links of the decoded text; else the links
/// of its lines.
pub open spec fn content_proxies(content: Seq<char>, document: Option<Seq<ProxyView>>) -> Seq<
    ProxyView,
> {
    match document {
        Some(d) => d,
        None => match base64_decoded(trim(content)) {
            Ok(t) => lines_proxies(t),
            Err(_) => lines_proxies(content),
        },
    }
}

pub fn is_space_char(c: char) -> (r: bool)
    ensures
        r == is_space(c),
{
    c == ' ' || ('\t' <= c && c <= '\r') || c == '\u{85}' || c == '\u{a0}' || c == '\u{1680}'
        || ('\u{2000}' <= c && c <= '\u{200a}') || c == '\u{2028}' || c == '\u{2029}' || c
        == '\u{202f}' || c == '\u{205f}' || c == '\u{3000}'
}

pub fn trim_chars(s: &Vec<char>) -> (r: Vec<char>)
    ensures
        r@ == trim(s@),
{
    let mut lo: usize = 0;
    let mut hi: usize = s.len();
    assert(s@.subrange(0, s.len() as int) =~= s@);
    while lo < hi && is_space_char(s[lo])
        invariant
            lo <= hi == s.len(),
            trim(s@) == trim(s@.subrange(lo as int, hi as int)),
        decreases hi - lo,
    {
        assert(s@.subrange(lo as int, hi as int).drop_first() =~= s@.subrange(lo + 1, hi as int));
        lo = lo + 1;
    }
    while lo < hi && is_space_char(s[hi - 1])
        invariant
            lo <= hi <= s.len(),
            trim(s@) == trim(s@.subrange(lo as int, hi as int)),
            lo < hi ==> !is_space(s@[lo as int]),
        decreases hi - lo,
    {
        let ghost t = s@.subrange(lo as int, hi as int);
        assert(t.drop_last() =~= s@.subrange(lo as int, hi - 1));
        assert(t[0] == s@[lo as int]);
        hi = hi - 1;
    }
    let ghost t = s@.subrange(lo as int, hi as int);
    if lo < hi {
        assert(t[0] == s@[lo as int]);
        assert(t.last() == s@[hi - 1]);
    }
    slice_chars(s, lo, hi)
}

impl SubManager {
    /// The proxies of the links among `lines`.
    fn links_proxies(lines: &Vec<Vec<char>>) -> (r: Vec<Proxy>)
        ensures
            pviews(r@) == links_of(views(lines@)),
    {
        let mut r: Vec<Proxy> = Vec::new();
        let mut i: usize = 0;
        assert(views(lines@).subrange(0, lines.len() as int) =~= views(lines@));
        assert(pviews(r@) =~= Seq::<ProxyView>::empty());
        assert(pviews(r@) + links_of(views(lines@)) =~= links_of(views(lines@)));
        while i < lines.len()
            invariant
                i <= lines.len(),
                pviews(r@) + links_of(views(lines@).subrange(i as int, lines.len() as int))
                    == links_of(views(lines@)),
            decreases lines.len() - i,
        {
            let ghost rest = views(lines@).subrange(i as int, lines.len() as int);
            assert(rest.drop_first() =~= views(lines@).subrange(i + 1, lines.len() as int));
            assert(rest[0] == lines@[i as int]@);
            if lines[i].len() > 0 {
                let link = string_of(&trim_chars(&lines[i]));
                match Proxy::from_link(link) {
                    Ok(p) => {
                        let ghost before = pviews(r@);
                        r.push(p);
                        assert(pviews(r@) =~= before.push(p@));
                        assert(before.push(p@) + links_of(rest.drop_first()) =~= before + (seq![p@]
                            + links_of(rest.drop_first())));
                    },
                    Err(_) => {},
                }
            }
            i = i + 1;
        }
        assert(views(lines@).subrange(0, lines.len() as int) =~= views(lines@));
        assert(pviews(r@) + links_of(
            views(lines@).subrange(lines.len() as int, lines.len() as int),
        ) =~= pviews(r@));
        r
    }

    /// Reads the proxies of a subscription. `document` holds the proxies of the content read
    /// as a structured document with a `proxies` list, where it is one.
    pub fn parse_content(content: String, document: Option<Vec<Proxy>>) -> (r: Vec<Proxy>)
        ensures
            pviews(r@) == content_proxies(
                content@,
                match document {
                    Some(d) => Some(pviews(d@)),
                    None => None,
                },
            ),
    {
        match document {
            Some(d) => d,
            None => {
                let chars = chars_of(content.as_str());
                let trimmed = string_of(&trim_chars(&chars));
                match base64decode(trimmed.as_str()) {
                    Ok(text) => SubManager::links_proxies(&split_all_at(&chars_of(text.as_str()), '\n')),
                    Err(_) => SubManager::links_proxies(&split_all_at(&chars, '\n')),
                }
            },
        }
    }
}

} // verus!

verus! {

pub open spec fn rank_of(v: ProxyView) -> nat {
    kind_of(v).rank_spec()
}

/// Some node of `s` is the same node as `v`.
pub open spec fn has_same(s: Seq<ProxyView>, v: ProxyView) -> bool {
    exists|i: int| 0 <= i < s.len() && same_node(s[i], v)
}

/// No two nodes of `s` are the same node.
pub open spec fn distinct_nodes(s: Seq<ProxyView>) -> bool {
    forall|i: int, j: int| 0 <= i < j < s.len() ==> !same_node(s[i], s[j])
}

/// The nodes of `s` come in the order of their kinds.
pub open spec fn sorted_by_kind(s: Seq<ProxyView>) -> bool {
    forall|i: int, j: int| 0 <= i < j < s.len() ==> rank_of(s[i]) <= rank_of(s[j])
}

/// `output` keeps one node of each set of same nodes of `input`, ordered by kind: no two of
/// its nodes are the same, each comes from `input`, and each node of `input` has its
/// like in it.
pub open spec fn dedup_result(input: Seq<ProxyView>, output: Seq<ProxyView>) -> bool {
    &&& distinct_nodes(output)
    &&& sorted_by_kind(output)
    &&& forall|i: int| 0 <= i < output.len() ==> input.contains(#[trigger] output[i])
    &&& forall|j: int| 0 <= j < input.len() ==> has_same(output, #[trigger] input[j])
}

pub proof fn lemma_same_node_transitive(a: ProxyView, b: ProxyView, c: ProxyView)
    requires
        same_node(a, b),
        same_node(b, c),
    ensures
        same_node(a, c),
{
}

/// Of two nodes of a list that are the same node (the same identity fields, whatever
/// their names), removing duplicates keeps exactly one: one node of the result is the
/// same as both, and no other node of the result is the same as either.
pub proof fn law_dedup_keeps_exactly_one(
    input: Seq<ProxyView>,
    output: Seq<ProxyView>,
    i: int,
    j: int,
)
    requires
        dedup_result(input, output),
        0 <= i < input.len(),
        0 <= j < input.len(),
        same_node(input[i], input[j]),
    ensures
        exists|k: int|
            0 <= k < output.len() && same_node(output[k], input[i]) && same_node(
                output[k],
                input[j],
            ),
        forall|k: int, l: int|
            0 <= k < output.len() && 0 <= l < output.len() && same_node(output[k], input[i])
                && same_node(output[l], input[j]) ==> k == l,
{
    assert(has_same(output, input[i]));
    let k = choose|k: int| 0 <= k < output.len() && same_node(output[k], input[i]);
    lemma_same_node_transitive(output[k], input[i], input[j]);
    assert forall|k1: int, l1: int|
        0 <= k1 < output.len() && 0 <= l1 < output.len() && same_node(output[k1], input[i])
            && same_node(output[l1], input[j]) implies k1 == l1 by {
        lemma_same_node_symmetric(output[l1], input[j]);
        lemma_same_node_transitive(output[k1], input[i], input[j]);
        lemma_same_node_transitive(output[k1], input[j], output[l1]);
        if k1 < l1 {
            assert(!same_node(output[k1], output[l1]));
        } else if l1 < k1 {
            lemma_same_node_symmetric(output[k1], output[l1]);
            assert(!same_node(output[l1], output[k1]));
        }
    }
}

/// Where the trimmed content is base64 of some text (and it is no structured document),
/// the proxies are read from the lines of the decoded text, never from the raw lines.
pub proof fn law_base64_read_before_lines(content: Seq<char>, text: Seq<char>)
    requires
        base64_decoded(trim(content)) == Ok::<Seq<char>, crate::base64::DecodeError>(text),
    ensures
        content_proxies(content, None) == lines_proxies(text),
{
}

pub proof fn lemma_same_node_reflexive(v: ProxyView)
    ensures
        same_node(v, v),
{
}

pub proof fn lemma_same_node_symmetric(a: ProxyView, b: ProxyView)
    ensures
        same_node(a, b) == same_node(b, a),
{
}

proof fn lemma_insert_has_same(s: Seq<ProxyView>, pos: int, p: ProxyView, v: ProxyView)
    requires
        0 <= pos <= s.len(),
        has_same(s, v),
    ensures
        has_same(s.insert(pos, p), v),
{
    s.insert_ensures(pos, p);
    let i = choose|i: int| 0 <= i < s.len() && same_node(s[i], v);
    if i < pos {
        assert(same_node(s.insert(pos, p)[i], v));
    } else {
        assert(same_node(s.insert(pos, p)[i + 1], v));
    }
}

fn push_position(res: &Vec<Proxy>, r: u8) -> (pos: usize)
    requires
        sorted_by_kind(pviews(res@)),
    ensures
        pos <= res.len(),
        forall|i: int| 0 <= i < pos ==> rank_of(#[trigger] pviews(res@)[i]) <= r,
        forall|i: int| pos <= i < res.len() ==> rank_of(#[trigger] pviews(res@)[i]) > r,
{
    let mut pos: usize = 0;
    while pos < res.len() && res[pos].proxy_type().rank() <= r
        invariant
            pos <= res.len(),
            forall|i: int| 0 <= i < pos ==> rank_of(#[trigger] pviews(res@)[i]) <= r,
        decreases res.len() - pos,
    {
        assert(pviews(res@)[pos as int] == res@[pos as int]@);
        pos = pos + 1;
    }
    if pos < res.len() {
        assert(pviews(res@)[pos as int] == res@[pos as int]@);
        assert forall|i: int| pos <= i < res.len() implies rank_of(#[trigger] pviews(res@)[i]) > r by {
            if i > pos {
                assert(rank_of(pviews(res@)[pos as int]) <= rank_of(pviews(res@)[i]));
            }
        }
    }
    pos
}

fn find_same(res: &Vec<Proxy>, p: &Proxy) -> (r: bool)
    ensures
        r == has_same(pviews(res@), p@),
{
    let mut i: usize = 0;
    while i < res.len()
        invariant
            i <= res.len(),
            forall|j: int| 0 <= j < i ==> !same_node(#[trigger] pviews(res@)[j], p@),
        decreases res.len() - i,
    {
        if res[i].same_node(p) {
            assert(same_node(pviews(res@)[i as int], p@));
            return true;
        }
        i = i + 1;
    }
    false
}

proof fn lemma_insert_keeps(
    old_res: Seq<ProxyView>,
    pos: int,
    pv: ProxyView,
    input: Seq<ProxyView>,
    consumed: int,
)
    requires
        0 <= pos <= old_res.len(),
        0 <= consumed < input.len(),
        input[consumed] == pv,
        !has_same(old_res, pv),
        distinct_nodes(old_res),
        sorted_by_kind(old_res),
        forall|i: int| 0 <= i < pos ==> rank_of(#[trigger] old_res[i]) <= rank_of(pv),
        forall|i: int| pos <= i < old_res.len() ==> rank_of(#[trigger] old_res[i]) > rank_of(pv),
        forall|i: int| 0 <= i < old_res.len() ==> input.contains(#[trigger] old_res[i]),
        forall|j: int| 0 <= j < consumed ==> has_same(old_res, #[trigger] input[j]),
    ensures
        distinct_nodes(old_res.insert(pos, pv)),
        sorted_by_kind(old_res.insert(pos, pv)),
        forall|i: int|
            0 <= i < old_res.len() + 1 ==> input.contains(#[trigger] old_res.insert(pos, pv)[i]),
        forall|j: int| 0 <= j < consumed + 1 ==> has_same(old_res.insert(pos, pv), #[trigger] input[j]),
{
    let new_res = old_res.insert(pos, pv);
    old_res.insert_ensures(pos, pv);
    assert forall|i: int, j: int| 0 <= i < j < new_res.len() implies !same_node(
        new_res[i],
        new_res[j],
    ) by {
        if j == pos {
            assert(!same_node(old_res[i], pv));
        } else if i == pos {
            lemma_same_node_symmetric(pv, old_res[j - 1]);
            assert(!same_node(old_res[j - 1], pv));
        } else if j < pos {
        } else if i < pos {
            assert(new_res[j] == old_res[j - 1]);
        } else {
            assert(new_res[i] == old_res[i - 1]);
            assert(new_res[j] == old_res[j - 1]);
        }
    }
    assert forall|i: int, j: int| 0 <= i < j < new_res.len() implies rank_of(new_res[i]) <= rank_of(
        new_res[j],
    ) by {
        if j == pos {
        } else if i == pos {
            assert(new_res[j] == old_res[j - 1]);
        } else if j < pos {
        } else if i < pos {
            assert(new_res[j] == old_res[j - 1]);
        } else {
            assert(new_res[i] == old_res[i - 1]);
            assert(new_res[j] == old_res[j - 1]);
        }
    }
    assert forall|i: int| 0 <= i < new_res.len() implies input.contains(#[trigger] new_res[i]) by {
        if i == pos {
            assert(input[consumed] == pv);
        } else if i > pos {
            assert(new_res[i] == old_res[i - 1]);
        }
    }
    assert forall|j: int| 0 <= j < consumed + 1 implies has_same(new_res, #[trigger] input[j]) by {
        if j == consumed {
            lemma_same_node_reflexive(pv);
            assert(same_node(new_res[pos], pv));
        } else {
            lemma_insert_has_same(old_res, pos, pv, input[j]);
        }
    }
}

impl SubManager {
    /// Keeps one proxy of each set of same nodes, ordered by kind.
    pub fn exclude_dup_proxies(proxies: Vec<Proxy>) -> (r: Vec<Proxy>)
        ensures
            dedup_result(pviews(proxies@), pviews(r@)),
    {
        let ghost input = pviews(proxies@);
        let mut rest = proxies;
        let mut res: Vec<Proxy> = Vec::new();
        let ghost mut consumed: int = 0;
        while rest.len() > 0
            invariant
                0 <= consumed <= input.len(),
                pviews(rest@) == input.subrange(consumed, input.len() as int),
                distinct_nodes(pviews(res@)),
                sorted_by_kind(pviews(res@)),
                forall|i: int| 0 <= i < res.len() ==> input.contains(#[trigger] pviews(res@)[i]),
                forall|j: int| 0 <= j < consumed ==> has_same(pviews(res@), #[trigger] input[j]),
            decreases rest.len(),
        {
            let ghost before = rest@;
            assert(pviews(before).len() == before.len());
            assert(input.subrange(consumed, input.len() as int).len() == input.len() - consumed);
            assert(consumed < input.len());
            let p = rest.remove(0);
            proof {
                assert(p == before[0]);
                assert(pviews(before)[0] == p@);
                assert(input.subrange(consumed, input.len() as int)[0] == input[consumed]);
                assert(rest@ == before.remove(0));
                assert(pviews(rest@) =~= pviews(before).subrange(1, before.len() as int));
                assert(pviews(before) == input.subrange(consumed, input.len() as int));
                assert(pviews(rest@) =~= input.subrange(consumed + 1, input.len() as int));
            }
            if !find_same(&res, &p) {
                let pos = push_position(&res, p.proxy_type().rank());
                let ghost old_res = pviews(res@);
                let ghost pv = p@;
                res.insert(pos, p);
                proof {
                    assert(pviews(res@) =~= old_res.insert(pos as int, pv));
                    lemma_insert_keeps(old_res, pos as int, pv, input, consumed);
                }
            } else {
                proof {
                    assert(has_same(pviews(res@), input[consumed]));
                }
            }
            proof {
                consumed = consumed + 1;
            }
        }
        assert(consumed == input.len());
        assert(input.subrange(0, consumed) =~= input);
        res
    }
}

} // verus!

verus! {

pub open spec fn names(s: Seq<ProxyView>) -> Seq<Seq<char>> {
    s.map_values(|v: ProxyView| name_of(v))
}

/// The names without their trailing digits.
pub open spec fn bases(ns: Seq<Seq<char>>) -> Seq<Seq<char>> {
    ns.map_values(|n: Seq<char>| strip_digits(n))
}

/// How many times `x` occurs in `s`.
pub open spec fn occurrences(s: Seq<Seq<char>>, x: Seq<char>) -> nat
    decreases s.len(),
{
    if s.len() == 0 {
        0
    } else {
        occurrences(s.drop_last(), x) + if s.last() == x {
            1nat
        } else {
            0nat
        }
    }
}

/// The first counter from `c` on whose suffixed name is not yet taken, trying at most
/// `fuel` more counters.
pub open spec fn first_free(keys: Seq<Seq<char>>, base: Seq<char>, c: nat, fuel: nat) -> nat
    decreases fuel,
{
    if fuel == 0 || !keys.contains(base + dec(c)) {
        c
    } else {
        first_free(keys, base, c + 1, (fuel - 1) as nat)
    }
}

/// `base` followed by the first counter, from 1 on, that gives a name not yet taken.
pub open spec fn suffixed(keys: Seq<Seq<char>>, base: Seq<char>) -> Seq<char> {
    base + dec(first_free(keys, base, 1, keys.len() + 1))
}

/// The new names of the nodes from `i` on: a base name that occurs once stays; one that
/// occurs more often gets the first free counter, and the new name is taken from then on.
pub open spec fn assign_from(b: Seq<Seq<char>>, i: int, keys: Seq<Seq<char>>) -> Seq<Seq<char>>
    decreases b.len() - i,
{
    if i < 0 || i >= b.len() {
        seq![]
    } else if occurrences(b, b[i]) > 1 {
        let n = suffixed(keys, b[i]);
        seq![n] + assign_from(b, i + 1, keys.push(n))
    } else {
        seq![b[i]] + assign_from(b, i + 1, keys)
    }
}

pub open spec fn assigned_names(ns: Seq<Seq<char>>) -> Seq<Seq<char>> {
    assign_from(bases(ns), 0, bases(ns))
}

/// Each node with the name that renaming gives it, in the original order.
pub open spec fn rename_plan(s: Seq<ProxyView>) -> Seq<ProxyView> {
    Seq::new(s.len(), |i: int| with_name(s[i], assigned_names(names(s))[i]))
}

/// The names of `s` never decrease.
pub open spec fn sorted_by_name(s: Seq<ProxyView>) -> bool {
    forall|i: int, j: int| 0 <= i < j < s.len() ==> chars_le(name_of(s[i]), name_of(s[j]))
}

pub proof fn lemma_assign_len(b: Seq<Seq<char>>, i: int, keys: Seq<Seq<char>>)
    requires
        0 <= i <= b.len(),
    ensures
        assign_from(b, i, keys).len() == b.len() - i,
    decreases b.len() - i,
{
    if i < b.len() {
        if occurrences(b, b[i]) > 1 {
            lemma_assign_len(b, i + 1, keys.push(suffixed(keys, b[i])));
        } else {
            lemma_assign_len(b, i + 1, keys);
        }
    }
}

fn copy_chars(s: &Vec<char>) -> (r: Vec<char>)
    ensures
        r@ == s@,
{
    assert(s@.subrange(0, s.len() as int) =~= s@);
    slice_chars(s, 0, s.len())
}

fn occurrences_of(b: &Vec<Vec<char>>, x: &Vec<char>) -> (r: usize)
    ensures
        r == occurrences(views(b@), x@),
{
    let mut n: usize = 0;
    let mut i: usize = 0;
    while i < b.len()
        invariant
            i <= b.len(),
            n <= i,
            n == occurrences(views(b@).subrange(0, i as int), x@),
        decreases b.len() - i,
    {
        let ghost s = views(b@).subrange(0, i + 1);
        assert(s.drop_last() =~= views(b@).subrange(0, i as int));
        if eq_chars(&b[i], x) {
            n = n + 1;
        }
        i = i + 1;
    }
    assert(views(b@).subrange(0, b.len() as int) =~= views(b@));
    n
}

fn contains_chars(keys: &Vec<Vec<char>>, x: &Vec<char>) -> (r: bool)
    ensures
        r == views(keys@).contains(x@),
{
    let mut i: usize = 0;
    while i < keys.len()
        invariant
            i <= keys.len(),
            forall|j: int| 0 <= j < i ==> views(keys@)[j] != x@,
        decreases keys.len() - i,
    {
        if eq_chars(&keys[i], x) {
            assert(views(keys@)[i as int] == x@);
            return true;
        }
        i = i + 1;
    }
    false
}

fn suffixed_name(keys: &Vec<Vec<char>>, base: &Vec<char>) -> (r: Vec<char>)
    requires
        keys.len() < usize::MAX - 2,
    ensures
        r@ == suffixed(views(keys@), base@),
{
    let ghost k = views(keys@);
    let mut c: usize = 1;
    let mut fuel: usize = keys.len() + 1;
    loop
        invariant
            c + fuel == keys.len() + 2,
            keys.len() < usize::MAX - 2,
            k == views(keys@),
            first_free(k, base@, 1, (k.len() + 1) as nat) == first_free(k, base@, c as nat, fuel as nat),
        decreases fuel,
    {
        let mut cand = copy_chars(base);
        push_all(&mut cand, &dec_chars(c as u64));
        if fuel == 0 || !contains_chars(keys, &cand) {
            return cand;
        }
        c = c + 1;
        fuel = fuel - 1;
    }
}

fn name_position(out: &Vec<Proxy>, x: &Vec<char>) -> (pos: usize)
    requires
        sorted_by_name(pviews(out@)),
    ensures
        pos <= out.len(),
        forall|i: int| 0 <= i < pos ==> chars_le(name_of(#[trigger] pviews(out@)[i]), x@),
        forall|i: int| pos <= i < out.len() ==> chars_lt(x@, name_of(#[trigger] pviews(out@)[i])),
{
    let mut pos: usize = 0;
    while pos < out.len() && !lt_chars(x, &chars_of(out[pos].get_name()))
        invariant
            pos <= out.len(),
            forall|i: int| 0 <= i < pos ==> chars_le(name_of(#[trigger] pviews(out@)[i]), x@),
        decreases out.len() - pos,
    {
        let ghost y = name_of(pviews(out@)[pos as int]);
        assert(pviews(out@)[pos as int] == out@[pos as int]@);
        proof {
            if y != x@ {
                lemma_lt_total(y, x@);
            }
        }
        pos = pos + 1;
    }
    if pos < out.len() {
        assert(pviews(out@)[pos as int] == out@[pos as int]@);
        assert forall|i: int| pos <= i < out.len() implies chars_lt(
            x@,
            name_of(#[trigger] pviews(out@)[i]),
        ) by {
            if i > pos {
                let a = name_of(pviews(out@)[pos as int]);
                let b = name_of(pviews(out@)[i]);
                assert(chars_le(a, b));
                if a != b {
                    lemma_lt_transitive(x@, a, b);
                }
            }
        }
    }
    pos
}

/// No two nodes of `s` share a name.
pub open spec fn distinct_names(s: Seq<ProxyView>) -> bool {
    forall|a: int, b: int| 0 <= a < b < s.len() ==> name_of(s[a]) != name_of(s[b])
}

proof fn lemma_insert_distinct(out: Seq<ProxyView>, pos: int, plan: Seq<ProxyView>, i: int)
    requires
        0 <= pos <= out.len(),
        0 <= i < plan.len(),
        distinct_names(out),
        forall|t: int| 0 <= t < out.len() ==> plan.subrange(0, i).contains(#[trigger] out[t]),
        forall|a: int, b: int| 0 <= a < b < plan.len() ==> name_of(plan[a]) != name_of(plan[b]),
    ensures
        distinct_names(out.insert(pos, plan[i])),
        forall|t: int|
            0 <= t < out.len() + 1 ==> plan.subrange(0, i + 1).contains(
                #[trigger] out.insert(pos, plan[i])[t],
            ),
{
    let n = out.insert(pos, plan[i]);
    out.insert_ensures(pos, plan[i]);
    assert forall|t: int| 0 <= t < out.len() implies name_of(#[trigger] out[t]) != name_of(plan[i]) by {
        assert(plan.subrange(0, i).contains(out[t]));
        let k = choose|k: int| 0 <= k < i && plan.subrange(0, i)[k] == out[t];
        assert(plan[k] == out[t]);
    }
    assert forall|a: int, b: int| 0 <= a < b < n.len() implies name_of(n[a]) != name_of(n[b]) by {
        if a == pos {
            assert(n[b] == out[b - 1]);
        } else if b == pos {
            assert(n[a] == out[a]);
        } else {
            let a0 = if a < pos { a } else { a - 1 };
            let b0 = if b < pos { b } else { b - 1 };
            assert(n[a] == out[a0]);
            assert(n[b] == out[b0]);
        }
    }
    assert forall|t: int| 0 <= t < out.len() + 1 implies plan.subrange(0, i + 1).contains(
        #[trigger] n[t],
    ) by {
        if t == pos {
            assert(n[t] == plan[i]);
            assert(plan.subrange(0, i + 1)[i] == plan[i]);
        } else {
            let t0 = if t < pos {
                t
            } else {
                t - 1
            };
            assert(n[t] == out[t0]);
            assert(plan.subrange(0, i).contains(out[t0]));
            let k = choose|k: int| 0 <= k < i && plan.subrange(0, i)[k] == out[t0];
            assert(plan.subrange(0, i + 1)[k] == n[t]);
        }
    }
}

proof fn lemma_name_insert(out: Seq<ProxyView>, pos: int, p: ProxyView)
    requires
        0 <= pos <= out.len(),
        sorted_by_name(out),
        forall|i: int| 0 <= i < pos ==> chars_le(name_of(#[trigger] out[i]), name_of(p)),
        forall|i: int| pos <= i < out.len() ==> chars_lt(name_of(p), name_of(#[trigger] out[i])),
    ensures
        sorted_by_name(out.insert(pos, p)),
{
    let n = out.insert(pos, p);
    out.insert_ensures(pos, p);
    assert forall|i: int, j: int| 0 <= i < j < n.len() implies chars_le(
        name_of(n[i]),
        name_of(n[j]),
    ) by {
        if j == pos {
        } else if i == pos {
            assert(n[j] == out[j - 1]);
        } else if j < pos {
        } else if i < pos {
            assert(n[j] == out[j - 1]);
        } else {
            assert(n[i] == out[i - 1]);
            assert(n[j] == out[j - 1]);
        }
    }
}

impl SubManager {
    /// Gives every proxy a distinct name: trailing digits are dropped, and names that then
    /// occur more than once get the first free counter; the list is then sorted by name.
    pub fn rename_dup_proxies_name(proxies: &mut Vec<Proxy>)
        requires
            old(proxies).len() < usize::MAX / 4,
        ensures
            pviews(final(proxies)@).to_multiset() == rename_plan(pviews(old(proxies)@)).to_multiset(),
            sorted_by_name(pviews(final(proxies)@)),
            distinct_names(pviews(final(proxies)@)),
    {
        let ghost input = pviews(proxies@);
        let n = proxies.len();
        let mut b: Vec<Vec<char>> = Vec::new();
        let mut i: usize = 0;
        while i < n
            invariant
                n == proxies.len(),
                input == pviews(proxies@),
                i <= n,
                views(b@) == bases(names(input)).subrange(0, i as int),
            decreases n - i,
        {
            assert(input[i as int] == proxies@[i as int]@);
            let s = strip_digits_chars(&chars_of(proxies[i].get_name()));
            let ghost before = views(b@);
            b.push(s);
            assert(views(b@) =~= before.push(s@));
            i = i + 1;
            assert(views(b@) =~= bases(names(input)).subrange(0, i as int));
        }
        assert(views(b@) =~= bases(names(input)));
        let mut keys: Vec<Vec<char>> = Vec::new();
        let mut i: usize = 0;
        while i < n
            invariant
                i <= n == b.len(),
                views(keys@) == views(b@).subrange(0, i as int),
            decreases n - i,
        {
            let s = copy_chars(&b[i]);
            let ghost before = views(keys@);
            keys.push(s);
            assert(views(keys@) =~= before.push(s@));
            i = i + 1;
            assert(views(keys@) =~= views(b@).subrange(0, i as int));
        }
        assert(views(keys@) =~= views(b@));
        let ghost all = assign_from(views(b@), 0, views(b@));
        let mut assigned: Vec<Vec<char>> = Vec::new();
        let mut i: usize = 0;
        proof {
            lemma_assign_len(views(b@), 0, views(b@));
        }
        while i < n
            invariant
                i <= n == b.len(),
                n < usize::MAX / 4,
                keys.len() <= n + i,
                all == assign_from(views(b@), 0, views(b@)),
                views(assigned@) + assign_from(views(b@), i as int, views(keys@)) == all,
            decreases n - i,
        {
            let ghost rest = assign_from(views(b@), i as int, views(keys@));
            let ghost before = views(assigned@);
            if occurrences_of(&b, &b[i]) > 1 {
                let name = suffixed_name(&keys, &b[i]);
                let kept = copy_chars(&name);
                let ghost old_keys = views(keys@);
                keys.push(kept);
                assert(views(keys@) =~= old_keys.push(name@));
                assigned.push(name);
                assert(views(assigned@) =~= before.push(name@));
                assert(rest == seq![name@] + assign_from(views(b@), i + 1, views(keys@)));
            } else {
                let name = copy_chars(&b[i]);
                assigned.push(name);
                assert(views(assigned@) =~= before.push(name@));
                assert(rest == seq![name@] + assign_from(views(b@), i + 1, views(keys@)));
            }
            assert(views(assigned@) + assign_from(views(b@), i + 1, views(keys@)) =~= before
                + rest);
            i = i + 1;
        }
        assert(views(assigned@) + assign_from(views(b@), n as int, views(keys@)) =~= views(
            assigned@,
        ));
        assert(views(assigned@) == assigned_names(names(input)));
        let ghost plan = rename_plan(input);
        proof {
            law_renamed_names_distinct(input);
        }
        let mut out: Vec<Proxy> = Vec::new();
        let mut i: usize = 0;
        assert(pviews(out@) =~= plan.subrange(0, 0));
        assert(pviews(proxies@) =~= input.subrange(0, n as int));
        while i < n
            invariant
                i <= n == assigned.len() == input.len(),
                views(assigned@) == assigned_names(names(input)),
                plan == rename_plan(input),
                pviews(proxies@) == input.subrange(i as int, n as int),
                sorted_by_name(pviews(out@)),
                pviews(out@).to_multiset() == plan.subrange(0, i as int).to_multiset(),
                out.len() == i,
                distinct_names(pviews(out@)),
                forall|t: int|
                    0 <= t < out.len() ==> plan.subrange(0, i as int).contains(#[trigger] pviews(out@)[t]),
                forall|a: int, b: int|
                    0 <= a < b < plan.len() ==> name_of(plan[a]) != name_of(plan[b]),
            decreases n - i,
        {
            let ghost before = proxies@;
            assert(pviews(before).len() == before.len());
            let mut p = proxies.remove(0);
            proof {
                assert(p == before[0]);
                assert(pviews(before)[0] == input[i as int]);
                assert(proxies@ == before.remove(0));
                assert(pviews(proxies@) =~= pviews(before).subrange(1, before.len() as int));
                assert(pviews(proxies@) =~= input.subrange(i + 1, n as int));
            }
            p.set_name(string_of(&assigned[i]).as_str());
            assert(p@ == plan[i as int]);
            let pos = name_position(&out, &assigned[i]);
            let ghost old_out = pviews(out@);
            out.insert(pos, p);
            proof {
                assert(pviews(out@) =~= old_out.insert(pos as int, plan[i as int]));
                lemma_name_insert(old_out, pos as int, plan[i as int]);
                lemma_insert_distinct(old_out, pos as int, plan, i as int);
                vstd::seq_lib::to_multiset_insert(old_out, pos as int, plan[i as int]);
                assert(plan.subrange(0, i + 1) =~= plan.subrange(0, i as int).push(plan[i as int]));
                vstd::seq_lib::to_multiset_build(plan.subrange(0, i as int), plan[i as int]);
            }
            i = i + 1;
        }
        assert(plan.subrange(0, n as int) =~= plan);
        *proxies = out;
    }
}

} // verus!

verus! {

/// `n` has no trailing digit.
pub open spec fn no_trailing_digit(n: Seq<char>) -> bool {
    n.len() == 0 || !is_digit(n.last())
}

proof fn lemma_occurrences_absent(b: Seq<Seq<char>>, x: Seq<char>)
    requires
        !b.contains(x),
    ensures
        occurrences(b, x) == 0,
    decreases b.len(),
{
    if b.len() > 0 {
        assert(!b.drop_last().contains(x)) by {
            if b.drop_last().contains(x) {
                let k = choose|k: int| 0 <= k < b.drop_last().len() && b.drop_last()[k] == x;
                assert(b[k] == x);
            }
        }
        lemma_occurrences_absent(b.drop_last(), x);
    }
}

proof fn lemma_occurrences_once(b: Seq<Seq<char>>, i: int)
    requires
        0 <= i < b.len(),
        forall|k: int, l: int| 0 <= k < l < b.len() ==> b[k] != b[l],
    ensures
        occurrences(b, b[i]) == 1,
    decreases b.len(),
{
    let d = b.drop_last();
    if i == b.len() - 1 {
        assert(!d.contains(b[i])) by {
            if d.contains(b[i]) {
                let k = choose|k: int| 0 <= k < d.len() && d[k] == b[i];
                assert(b[k] == b[i]);
            }
        }
        lemma_occurrences_absent(d, b[i]);
    } else {
        assert(d[i] == b[i]);
        lemma_occurrences_once(d, i);
        assert(b.last() != b[i]);
    }
}

proof fn lemma_assign_unique(b: Seq<Seq<char>>, i: int, keys: Seq<Seq<char>>)
    requires
        0 <= i <= b.len(),
        forall|k: int, l: int| 0 <= k < l < b.len() ==> b[k] != b[l],
    ensures
        assign_from(b, i, keys) == b.subrange(i, b.len() as int),
    decreases b.len() - i,
{
    if i < b.len() {
        lemma_occurrences_once(b, i);
        lemma_assign_unique(b, i + 1, keys);
        assert(seq![b[i]] + b.subrange(i + 1, b.len() as int) =~= b.subrange(i, b.len() as int));
    } else {
        assert(b.subrange(i, b.len() as int) =~= Seq::<Seq<char>>::empty());
    }
}

pub proof fn lemma_with_own_name(v: ProxyView)
    ensures
        with_name(v, name_of(v)) == v,
{
}

/// Renaming a list whose names have no trailing digits and are pairwise distinct leaves
/// every node as it was: the renamed list is the list itself, so the result of
/// `rename_dup_proxies_name` holds the same nodes, only sorted by name.
pub proof fn law_rename_keeps_unique_names(s: Seq<ProxyView>)
    requires
        forall|i: int| 0 <= i < s.len() ==> no_trailing_digit(#[trigger] name_of(s[i])),
        forall|i: int, j: int| 0 <= i < j < s.len() ==> name_of(s[i]) != name_of(s[j]),
    ensures
        rename_plan(s) == s,
{
    let ns = names(s);
    let b = bases(ns);
    assert forall|i: int| 0 <= i < b.len() implies b[i] == ns[i] by {
        assert(ns[i] == name_of(s[i]));
        assert(no_trailing_digit(name_of(s[i])));
    }
    assert(b =~= ns);
    assert forall|k: int, l: int| 0 <= k < l < b.len() implies b[k] != b[l] by {
        assert(b[k] == name_of(s[k]));
        assert(b[l] == name_of(s[l]));
    }
    lemma_assign_unique(b, 0, b);
    assert(b.subrange(0, b.len() as int) =~= b);
    assert forall|i: int| 0 <= i < s.len() implies rename_plan(s)[i] == s[i] by {
        assert(assigned_names(ns)[i] == name_of(s[i]));
        lemma_with_own_name(s[i]);
    }
    assert(rename_plan(s) =~= s);
}

} // verus!

verus! {

proof fn lemma_dec_injective(base: Seq<char>, a: nat, b: nat)
    requires
        base + dec(a) == base + dec(b),
    ensures
        a == b,
{
    let x = base + dec(a);
    assert(x.subrange(base.len() as int, x.len() as int) =~= dec(a));
    assert((base + dec(b)).subrange(base.len() as int, x.len() as int) =~= dec(b));
    crate::text::lemma_dec_digits(a);
    crate::text::lemma_dec_digits(b);
}

/// More than `keys.len()` distinct names cannot all be among `keys`.
proof fn lemma_pigeonhole(keys: Seq<Seq<char>>, base: Seq<char>)
    ensures
        exists|c: int| 1 <= c < keys.len() + 2 && !keys.contains(#[trigger] (base + dec(c as nat))),
{
    if forall|c: int| 1 <= c < keys.len() + 2 ==> keys.contains(#[trigger] (base + dec(c as nat))) {
        lemma_all_taken_impossible(keys, base);
    }
}

proof fn lemma_all_taken_impossible(keys: Seq<Seq<char>>, base: Seq<char>)
    requires
        forall|c: int| 1 <= c < keys.len() + 2 ==> keys.contains(#[trigger] (base + dec(c as nat))),
    ensures
        vstd::set_lib::set_int_range(1, keys.len() as int + 2).map(|c: int| base + dec(c as nat)).len()
            <= keys.len() < vstd::set_lib::set_int_range(1, keys.len() as int + 2).map(
            |c: int| base + dec(c as nat),
        ).len(),
{
    let f = |c: int| base + dec(c as nat);
    let dom = vstd::set_lib::set_int_range(1, keys.len() as int + 2);
    vstd::set_lib::lemma_int_range(1, keys.len() as int + 2);
    assert(vstd::relations::injective_on(f, dom)) by {
        assert forall|x1: int, x2: int|
            dom.contains(x1) && dom.contains(x2) && #[trigger] f(x1) == #[trigger] f(x2) implies x1
            == x2 by {
            lemma_dec_injective(base, x1 as nat, x2 as nat);
        }
    }
    let img = dom.map(f);
    vstd::set_lib::lemma_map_size(dom, img, f);
    keys.lemma_cardinality_of_set();
    assert(img.subset_of(keys.to_set())) by {
        assert forall|x: Seq<char>| img.contains(x) implies keys.to_set().contains(x) by {
            let c = choose|c: int| dom.contains(c) && f(c) == x;
            assert(keys.contains(base + dec(c as nat)));
        }
    }
    vstd::set_lib::lemma_len_subset(img, keys.to_set());
    assert(img =~= vstd::set_lib::set_int_range(1, keys.len() as int + 2).map(|c: int| base + dec(c as nat)));
}

proof fn lemma_first_free_steps(keys: Seq<Seq<char>>, base: Seq<char>, c: nat, fuel: nat)
    ensures
        c <= first_free(keys, base, c, fuel) <= c + fuel,
        first_free(keys, base, c, fuel) < c + fuel ==> !keys.contains(
            base + dec(first_free(keys, base, c, fuel)),
        ),
        forall|d: int| c <= d < first_free(keys, base, c, fuel) ==> keys.contains(
            #[trigger] (base + dec(d as nat)),
        ),
    decreases fuel,
{
    if fuel > 0 && keys.contains(base + dec(c)) {
        lemma_first_free_steps(keys, base, c + 1, (fuel - 1) as nat);
    }
}

/// The name given to a repeated base is not yet taken.
proof fn lemma_suffixed_fresh(keys: Seq<Seq<char>>, base: Seq<char>)
    ensures
        !keys.contains(suffixed(keys, base)),
{
    lemma_first_free_steps(keys, base, 1, keys.len() + 1);
    let r = first_free(keys, base, 1, (keys.len() + 1) as nat);
    lemma_pigeonhole(keys, base);
    if r == keys.len() + 2 {
        let c = choose|c: int| 1 <= c < keys.len() + 2 && !keys.contains(#[trigger] (base + dec(c as nat)));
        assert(keys.contains(base + dec(c as nat)));
    }
}

proof fn lemma_occurrences_positions(b: Seq<Seq<char>>, i: int, j: int)
    requires
        0 <= i < b.len(),
        0 <= j < b.len(),
        i != j,
        b[i] == b[j],
    ensures
        occurrences(b, b[i]) > 1,
    decreases b.len(),
{
    let d = b.drop_last();
    if i == b.len() - 1 {
        lemma_occurrences_at_least_one(d, j);
    } else if j == b.len() - 1 {
        lemma_occurrences_at_least_one(d, i);
    } else {
        lemma_occurrences_positions(d, i, j);
    }
}

proof fn lemma_occurrences_at_least_one(b: Seq<Seq<char>>, i: int)
    requires
        0 <= i < b.len(),
    ensures
        occurrences(b, b[i]) >= 1,
    decreases b.len(),
{
    if i < b.len() - 1 {
        lemma_occurrences_at_least_one(b.drop_last(), i);
    }
}

proof fn lemma_assign_distinct(b: Seq<Seq<char>>, i: int, keys: Seq<Seq<char>>)
    requires
        0 <= i <= b.len(),
        forall|k: int| 0 <= k < b.len() ==> keys.contains(#[trigger] b[k]),
    ensures
        assign_from(b, i, keys).len() == b.len() - i,
        forall|t: int|
            0 <= t < b.len() - i ==> (occurrences(b, b[i + t]) <= 1 && #[trigger] assign_from(
                b,
                i,
                keys,
            )[t] == b[i + t]) || (occurrences(b, b[i + t]) > 1 && !keys.contains(
                assign_from(b, i, keys)[t],
            )),
        forall|t: int, u: int|
            0 <= t < u < b.len() - i ==> assign_from(b, i, keys)[t] != assign_from(b, i, keys)[u],
    decreases b.len() - i,
{
    if i < b.len() {
        let unique = occurrences(b, b[i]) <= 1;
        let n = if unique {
            b[i]
        } else {
            suffixed(keys, b[i])
        };
        let keys2 = if unique {
            keys
        } else {
            keys.push(n)
        };
        assert forall|k: int| 0 <= k < b.len() implies keys2.contains(#[trigger] b[k]) by {
            assert(keys.contains(b[k]));
            if !unique {
                let w = choose|w: int| 0 <= w < keys.len() && keys[w] == b[k];
                assert(keys2[w] == b[k]);
            }
        }
        lemma_assign_distinct(b, i + 1, keys2);
        let rest = assign_from(b, i + 1, keys2);
        let all = assign_from(b, i, keys);
        assert(all == seq![n] + rest);
        if !unique {
            lemma_suffixed_fresh(keys, b[i]);
        }
        assert forall|t: int|
            0 <= t < b.len() - i implies (occurrences(b, b[i + t]) <= 1 && #[trigger] all[t] == b[i
                + t]) || (occurrences(b, b[i + t]) > 1 && !keys.contains(all[t])) by {
            if t > 0 {
                assert(all[t] == rest[t - 1]);
                assert(b[i + 1 + (t - 1)] == b[i + t]);
                if occurrences(b, b[i + t]) > 1 && !unique {
                    if keys.contains(rest[t - 1]) {
                        let w = choose|w: int| 0 <= w < keys.len() && keys[w] == rest[t - 1];
                        assert(keys2[w] == rest[t - 1]);
                    }
                }
            }
        }
        assert forall|t: int, u: int| 0 <= t < u < b.len() - i implies all[t] != all[u] by {
            if t == 0 {
                assert(all[u] == rest[u - 1]);
                let j = i + u;
                assert(b[i + 1 + (u - 1)] == b[j]);
                if occurrences(b, b[j]) <= 1 {
                    assert(rest[u - 1] == b[j]);
                    if unique {
                        if b[i] == b[j] {
                            lemma_occurrences_positions(b, i, j);
                        }
                    } else {
                        assert(keys.contains(b[j]));
                    }
                } else {
                    assert(!keys2.contains(rest[u - 1]));
                    if unique {
                        assert(keys.contains(b[i]));
                    } else {
                        assert(keys2[keys.len() as int] == n);
                    }
                }
            } else {
                assert(all[t] == rest[t - 1]);
                assert(all[u] == rest[u - 1]);
            }
        }
    }
}

/// After renaming, no two nodes share a name.
pub proof fn law_renamed_names_distinct(s: Seq<ProxyView>)
    ensures
        forall|i: int, j: int|
            0 <= i < j < s.len() ==> name_of(rename_plan(s)[i]) != name_of(rename_plan(s)[j]),
{
    let b = bases(names(s));
    assert forall|k: int| 0 <= k < b.len() implies b.contains(#[trigger] b[k]) by {
    }
    lemma_assign_distinct(b, 0, b);
    assert forall|i: int, j: int| 0 <= i < j < s.len() implies name_of(rename_plan(s)[i]) != name_of(
        rename_plan(s)[j],
    ) by {
        let a = assign_from(b, 0, b);
        assert(name_of(rename_plan(s)[i]) == a[i]);
        assert(name_of(rename_plan(s)[j]) == a[j]);
    }
}

} // verus!

verus! {

/// The older subscription helper: it numbers repeated names by their order of appearance.
#[derive(Debug)]
pub struct SubConverter {}

/// The name that numbering gives the node at `i`: its name, followed by how many earlier
/// nodes had the same name where there are any.
pub open spec fn numbered_name(ns: Seq<Seq<char>>, i: int) -> Seq<char> {
    let k = occurrences(ns.subrange(0, i), ns[i]);
    if k > 0 {
        ns[i] + dec(k)
    } else {
        ns[i]
    }
}

/// The nodes of `s` whose names are among `keep`, in order.
pub open spec fn kept_by_name(s: Seq<ProxyView>, keep: Seq<Seq<char>>) -> Seq<ProxyView>
    decreases s.len(),
{
    if s.len() == 0 {
        seq![]
    } else {
        let rest = kept_by_name(s.drop_last(), keep);
        if keep.contains(name_of(s.last())) {
            rest.push(s.last())
        } else {
            rest
        }
    }
}

impl SubConverter {
    /// Keeps one proxy of each set of same nodes, ordered by kind.
    pub fn exclude_dup_proxies(proxies: Vec<Proxy>) -> (r: Vec<Proxy>)
        ensures
            dedup_result(pviews(proxies@), pviews(r@)),
    {
        SubManager::exclude_dup_proxies(proxies)
    }

    /// Appends to each repeated name the number of earlier proxies with that name.
    pub fn rename_dup_proxies_name(proxies: &mut Vec<Proxy>)
        ensures
            pviews(final(proxies)@) == Seq::new(
                old(proxies)@.len(),
                |i: int| with_name(pviews(old(proxies)@)[i], numbered_name(names(pviews(old(proxies)@)), i)),
            ),
    {
        let ghost input = pviews(proxies@);
        let n = proxies.len();
        let mut ns: Vec<Vec<char>> = Vec::new();
        let mut i: usize = 0;
        while i < n
            invariant
                n == proxies.len(),
                input == pviews(proxies@),
                i <= n,
                views(ns@) == names(input).subrange(0, i as int),
            decreases n - i,
        {
            assert(input[i as int] == proxies@[i as int]@);
            let s = chars_of(proxies[i].get_name());
            let ghost before = views(ns@);
            ns.push(s);
            assert(views(ns@) =~= before.push(s@));
            i = i + 1;
            assert(views(ns@) =~= names(input).subrange(0, i as int));
        }
        assert(views(ns@) =~= names(input));
        let ghost target = Seq::new(
            input.len(),
            |i: int| with_name(input[i], numbered_name(names(input), i)),
        );
        let mut out: Vec<Proxy> = Vec::new();
        let mut i: usize = 0;
        assert(pviews(proxies@) =~= input.subrange(0, n as int));
        while i < n
            invariant
                i <= n == ns.len() == input.len(),
                views(ns@) == names(input),
                pviews(proxies@) == input.subrange(i as int, n as int),
                pviews(out@) == target.subrange(0, i as int),
                target == Seq::new(
                    input.len(),
                    |i: int| with_name(input[i], numbered_name(names(input), i)),
                ),
            decreases n - i,
        {
            let ghost before = proxies@;
            assert(pviews(before).len() == before.len());
            let mut p = proxies.remove(0);
            proof {
                assert(p == before[0]);
                assert(pviews(before)[0] == input[i as int]);
                assert(proxies@ == before.remove(0));
                assert(pviews(proxies@) =~= pviews(before).subrange(1, before.len() as int));
                assert(pviews(proxies@) =~= input.subrange(i + 1, n as int));
            }
            let mut k: usize = 0;
            let mut j: usize = 0;
            while j < i
                invariant
                    j <= i < n == ns.len(),
                    k <= j,
                    k == occurrences(views(ns@).subrange(0, j as int), views(ns@)[i as int]),
                decreases i - j,
            {
                let ghost pre = views(ns@).subrange(0, j + 1);
                assert(pre.drop_last() =~= views(ns@).subrange(0, j as int));
                if eq_chars(&ns[j], &ns[i]) {
                    k = k + 1;
                }
                j = j + 1;
            }
            let mut name = copy_chars(&ns[i]);
            if k > 0 {
                push_all(&mut name, &dec_chars(k as u64));
            }
            assert(name@ == numbered_name(names(input), i as int));
            p.set_name(string_of(&name).as_str());
            let ghost old_out = pviews(out@);
            out.push(p);
            assert(pviews(out@) =~= old_out.push(p@));
            i = i + 1;
            assert(pviews(out@) =~= target.subrange(0, i as int));
        }
        assert(target.subrange(0, n as int) =~= target);
        *proxies = out;
    }
}

/// The proxies whose names are among `names`, in order.
pub fn include_names(proxies: Vec<Proxy>, names: Vec<String>) -> (r: Vec<Proxy>)
    ensures
        pviews(r@) == kept_by_name(pviews(proxies@), names@.map_values(|s: String| s@)),
{
    let ghost input = pviews(proxies@);
    let ghost keep = names@.map_values(|s: String| s@);
    let n = proxies.len();
    let mut rest = proxies;
    let mut out: Vec<Proxy> = Vec::new();
    let mut i: usize = 0;
    assert(pviews(rest@) =~= input.subrange(0, n as int));
    assert(input.subrange(0, 0) =~= Seq::<ProxyView>::empty());
    while i < n
        invariant
            i <= n == input.len(),
            keep == names@.map_values(|s: String| s@),
            pviews(rest@) == input.subrange(i as int, n as int),
            pviews(out@) == kept_by_name(input.subrange(0, i as int), keep),
        decreases n - i,
    {
        let ghost before = rest@;
        assert(pviews(before).len() == before.len());
        let p = rest.remove(0);
        proof {
            assert(p == before[0]);
            assert(pviews(before)[0] == input[i as int]);
            assert(rest@ == before.remove(0));
            assert(pviews(rest@) =~= pviews(before).subrange(1, before.len() as int));
            assert(pviews(rest@) =~= input.subrange(i + 1, n as int));
            let s = input.subrange(0, i + 1);
            assert(s.drop_last() =~= input.subrange(0, i as int));
            assert(s.last() == p@);
        }
        let name = chars_of(p.get_name());
        let mut found = false;
        let mut j: usize = 0;
        while j < names.len()
            invariant
                j <= names.len(),
                keep == names@.map_values(|s: String| s@),
                found == exists|t: int| 0 <= t < j && keep[t] == name@,
            decreases names.len() - j,
        {
            assert(keep[j as int] == names@[j as int]@);
            if eq_chars(&chars_of(names[j].as_str()), &name) {
                found = true;
            }
            j = j + 1;
        }
        assert(found == keep.contains(name@));
        if found {
            let ghost old_out = pviews(out@);
            out.push(p);
            assert(pviews(out@) =~= old_out.push(p@));
        }
        i = i + 1;
    }
    assert(input.subrange(0, n as int) =~= input);
    out
}

} // verus!
