//! Summaries of latency test rounds: which nodes answered, and which answered fastest.
use vstd::prelude::*;
use crate::text::chars_of;
use crate::text::eq_chars;
use crate::text::slice_chars;
use crate::text::string_of;

verus! {

pub type Sample = (Seq<char>, i64);

/// The `(node, latency)` samples of all rounds, round after round.
pub open spec fn all_samples(rounds: Seq<Seq<Sample>>) -> Seq<Sample>
    decreases rounds.len(),
{
    if rounds.len() == 0 {
        seq![]
    } else {
        all_samples(rounds.drop_last()) + rounds.last()
    }
}

pub open spec fn rounds_view(rounds: Seq<Vec<(String, i64)>>) -> Seq<Seq<Sample>> {
    rounds.map_values(|r: Vec<(String, i64)>| r@.map_values(|p: (String, i64)| (p.0@, p.1)))
}

/// The nodes of `s` in the order in which they first appear.
pub open spec fn first_seen(s: Seq<Sample>) -> Seq<Seq<char>>
    decreases s.len(),
{
    if s.len() == 0 {
        seq![]
    } else {
        let prev = first_seen(s.drop_last());
        if prev.contains(s.last().0) {
            prev
        } else {
            prev.push(s.last().0)
        }
    }
}

/// The sum of the latencies of `node`.
pub open spec fn total_of(s: Seq<Sample>, node: Seq<char>) -> int
    decreases s.len(),
{
    if s.len() == 0 {
        0
    } else {
        total_of(s.drop_last(), node) + if s.last().0 == node {
            s.last().1 as int
        } else {
            0
        }
    }
}

/// How many latencies `node` has.
pub open spec fn count_of(s: Seq<Sample>, node: Seq<char>) -> nat
    decreases s.len(),
{
    if s.len() == 0 {
        0
    } else {
        count_of(s.drop_last(), node) + if s.last().0 == node {
            1nat
        } else {
            0nat
        }
    }
}

/// Integer division rounding toward zero, as `i64` division does.
pub open spec fn trunc_div(a: int, b: int) -> int {
    if a >= 0 {
        a / b
    } else {
        -((-a) / b)
    }
}

/// The mean latency of `node`, rounded toward zero.
pub open spec fn mean_of(s: Seq<Sample>, node: Seq<char>) -> int {
    trunc_div(total_of(s, node), count_of(s, node) as int)
}

/// The first node among `nodes` whose mean latency is least.
pub open spec fn fastest(nodes: Seq<Seq<char>>, s: Seq<Sample>) -> Seq<char>
    decreases nodes.len(),
{
    if nodes.len() <= 1 {
        nodes[0]
    } else {
        let b = fastest(nodes.drop_last(), s);
        if mean_of(s, nodes.last()) < mean_of(s, b) {
            nodes.last()
        } else {
            b
        }
    }
}

fn flatten(rounds: &Vec<Vec<(String, i64)>>) -> (r: Vec<(Vec<char>, i64)>)
    ensures
        r@.map_values(|p: (Vec<char>, i64)| (p.0@, p.1)) == all_samples(rounds_view(rounds@)),
{
    let mut r: Vec<(Vec<char>, i64)> = Vec::new();
    let mut i: usize = 0;
    while i < rounds.len()
        invariant
            i <= rounds.len(),
            r@.map_values(|p: (Vec<char>, i64)| (p.0@, p.1)) == all_samples(
                rounds_view(rounds@).subrange(0, i as int),
            ),
        decreases rounds.len() - i,
    {
        let ghost base = r@.map_values(|p: (Vec<char>, i64)| (p.0@, p.1));
        let round = &rounds[i];
        assert(rounds_view(rounds@)[i as int] == round@.map_values(|p: (String, i64)| (p.0@, p.1)));
        let mut j: usize = 0;
        while j < round.len()
            invariant
                j <= round.len(),
                i < rounds.len(),
                round == rounds@[i as int],
                rounds_view(rounds@)[i as int] == round@.map_values(|p: (String, i64)| (p.0@, p.1)),
                r@.map_values(|p: (Vec<char>, i64)| (p.0@, p.1)) == base + rounds_view(
                    rounds@,
                )[i as int].subrange(0, j as int),
            decreases round.len() - j,
        {
            let ghost before = r@;
            r.push((chars_of(round[j].0.as_str()), round[j].1));
            assert(r@.map_values(|p: (Vec<char>, i64)| (p.0@, p.1)) =~= before.map_values(
                |p: (Vec<char>, i64)| (p.0@, p.1),
            ).push((round@[j as int].0@, round@[j as int].1)));
            j = j + 1;
            assert(r@.map_values(|p: (Vec<char>, i64)| (p.0@, p.1)) =~= base + rounds_view(
                rounds@,
            )[i as int].subrange(0, j as int));
        }
        let ghost now = rounds_view(rounds@).subrange(0, i + 1);
        assert(now.drop_last() =~= rounds_view(rounds@).subrange(0, i as int));
        assert(rounds_view(rounds@)[i as int].subrange(0, j as int) =~= rounds_view(rounds@)[i as int]);
        i = i + 1;
    }
    assert(rounds_view(rounds@).subrange(0, rounds.len() as int) =~= rounds_view(rounds@));
    r
}

pub open spec fn sample_views(r: Seq<(Vec<char>, i64)>) -> Seq<Sample> {
    r.map_values(|p: (Vec<char>, i64)| (p.0@, p.1))
}

fn seen_nodes(s: &Vec<(Vec<char>, i64)>) -> (r: Vec<Vec<char>>)
    ensures
        crate::text::views(r@) == first_seen(sample_views(s@)),
{
    let mut r: Vec<Vec<char>> = Vec::new();
    let mut i: usize = 0;
    while i < s.len()
        invariant
            i <= s.len(),
            crate::text::views(r@) == first_seen(sample_views(s@).subrange(0, i as int)),
        decreases s.len() - i,
    {
        let ghost pre = sample_views(s@).subrange(0, i + 1);
        assert(pre.drop_last() =~= sample_views(s@).subrange(0, i as int));
        assert(pre.last().0 == s@[i as int].0@);
        let mut found = false;
        let mut k: usize = 0;
        while k < r.len()
            invariant
                k <= r.len(),
                i < s.len(),
                found == exists|t: int| 0 <= t < k && crate::text::views(r@)[t] == s@[i as int].0@,
            decreases r.len() - k,
        {
            assert(crate::text::views(r@)[k as int] == r@[k as int]@);
            if eq_chars(&r[k], &s[i].0) {
                found = true;
            }
            k = k + 1;
        }
        assert(found == crate::text::views(r@).contains(s@[i as int].0@));
        if !found {
            let ghost before = crate::text::views(r@);
            let copy = slice_chars(&s[i].0, 0, s[i].0.len());
            assert(s@[i as int].0@.subrange(0, s@[i as int].0@.len() as int) =~= s@[i as int].0@);
            r.push(copy);
            assert(crate::text::views(r@) =~= before.push(s@[i as int].0@));
        }
        i = i + 1;
    }
    assert(sample_views(s@).subrange(0, s.len() as int) =~= sample_views(s@));
    r
}

/// The nodes that answered in some round, in the order in which they first answered.
pub fn get_all_tested_nodes(test_results: &Vec<Vec<(String, i64)>>) -> (r: Vec<String>)
    ensures
        r@.map_values(|s: String| s@) == first_seen(all_samples(rounds_view(test_results@))),
{
    let samples = flatten(test_results);
    let nodes = seen_nodes(&samples);
    let mut r: Vec<String> = Vec::new();
    let mut i: usize = 0;
    while i < nodes.len()
        invariant
            i <= nodes.len(),
            r@.map_values(|s: String| s@) == crate::text::views(nodes@).subrange(0, i as int),
        decreases nodes.len() - i,
    {
        let s = string_of(&nodes[i]);
        let ghost before = r@;
        r.push(s);
        assert(r@.map_values(|s: String| s@) =~= before.map_values(|s: String| s@).push(s@));
        i = i + 1;
        assert(r@.map_values(|s: String| s@) =~= crate::text::views(nodes@).subrange(0, i as int));
    }
    assert(crate::text::views(nodes@).subrange(0, nodes.len() as int) =~= crate::text::views(nodes@));
    r
}

fn mean_latency(s: &Vec<(Vec<char>, i64)>, node: &Vec<char>) -> (r: i64)
    requires
        count_of(sample_views(s@), node@) > 0,
    ensures
        r as int == mean_of(sample_views(s@), node@),
{
    let mut total: i128 = 0;
    let mut count: u64 = 0;
    let mut i: usize = 0;
    while i < s.len()
        invariant
            i <= s.len(),
            count <= i,
            total as int == total_of(sample_views(s@).subrange(0, i as int), node@),
            count as int == count_of(sample_views(s@).subrange(0, i as int), node@),
            -(count as int) * 0x8000_0000_0000_0000 <= total as int <= (count as int)
                * 0x7fff_ffff_ffff_ffff,
        decreases s.len() - i,
    {
        let ghost pre = sample_views(s@).subrange(0, i + 1);
        assert(pre.drop_last() =~= sample_views(s@).subrange(0, i as int));
        assert(pre.last() == (s@[i as int].0@, s@[i as int].1));
        if eq_chars(&s[i].0, node) {
            let x = s[i].1;
            assert(-(count as int + 1) * 0x8000_0000_0000_0000 <= total as int + x as int <= (
            count as int + 1) * 0x7fff_ffff_ffff_ffff) by (nonlinear_arith)
                requires
                    -(count as int) * 0x8000_0000_0000_0000 <= total as int <= (count as int)
                        * 0x7fff_ffff_ffff_ffff,
                    -0x8000_0000_0000_0000 <= x as int <= 0x7fff_ffff_ffff_ffff,
            ;
            assert((count as int + 1) * 0x8000_0000_0000_0000 <= 0x7fff_ffff_ffff_ffff_ffff_ffff_ffff_ffff)
                by (nonlinear_arith)
                requires
                    count as int <= 0xffff_ffff_ffff_fffe,
            ;
            total = total + x as i128;
            count = count + 1;
        }
        i = i + 1;
    }
    assert(sample_views(s@).subrange(0, s.len() as int) =~= sample_views(s@));
    let c = count as i128;
    let q: i128 = if total >= 0 {
        total / c
    } else {
        -((-total) / c)
    };
    assert(-0x8000_0000_0000_0000 <= q as int <= 0x7fff_ffff_ffff_ffff) by (nonlinear_arith)
        requires
            c as int > 0,
            -(c as int) * 0x8000_0000_0000_0000 <= total as int <= (c as int) * 0x7fff_ffff_ffff_ffff,
            q as int == trunc_div(total as int, c as int),
    ;
    q as i64
}

/// The node whose mean latency over all rounds is least (the first such node where several
/// tie), with that mean rounded toward zero.
pub fn get_top_node(test_results: &Vec<Vec<(String, i64)>>) -> (r: (String, i64))
    requires
        all_samples(rounds_view(test_results@)).len() > 0,
    ensures
        r.0@ == fastest(
            first_seen(all_samples(rounds_view(test_results@))),
            all_samples(rounds_view(test_results@)),
        ),
        r.1 as int == mean_of(all_samples(rounds_view(test_results@)), r.0@),
{
    let samples = flatten(test_results);
    let ghost sv = sample_views(samples@);
    let nodes = seen_nodes(&samples);
    proof {
        lemma_seen_counted(sv);
        lemma_first_seen_nonempty(sv);
    }
    let mut best = slice_chars(&nodes[0], 0, nodes[0].len());
    assert(nodes@[0]@.subrange(0, nodes@[0]@.len() as int) =~= nodes@[0]@);
    assert(crate::text::views(nodes@)[0] == nodes@[0]@);
    assert(count_of(sv, crate::text::views(nodes@)[0]) > 0);
    let mut best_mean = mean_latency(&samples, &best);
    let mut i: usize = 1;
    assert(crate::text::views(nodes@).subrange(0, 1) =~= seq![nodes@[0]@]);
    while i < nodes.len()
        invariant
            1 <= i <= nodes.len(),
            crate::text::views(nodes@) == first_seen(sv),
            sv == sample_views(samples@),
            forall|k: int| 0 <= k < nodes.len() ==> count_of(sv, #[trigger] crate::text::views(nodes@)[k]) > 0,
            best@ == fastest(crate::text::views(nodes@).subrange(0, i as int), sv),
            best_mean as int == mean_of(sv, best@),
        decreases nodes.len() - i,
    {
        let ghost pre = crate::text::views(nodes@).subrange(0, i + 1);
        assert(pre.drop_last() =~= crate::text::views(nodes@).subrange(0, i as int));
        assert(pre.last() == nodes@[i as int]@);
        assert(count_of(sv, crate::text::views(nodes@)[i as int]) > 0);
        let m = mean_latency(&samples, &nodes[i]);
        if m < best_mean {
            best = slice_chars(&nodes[i], 0, nodes[i].len());
            assert(nodes@[i as int]@.subrange(0, nodes@[i as int]@.len() as int) =~= nodes@[i as int]@);
            best_mean = m;
        }
        i = i + 1;
    }
    assert(crate::text::views(nodes@).subrange(0, nodes.len() as int) =~= crate::text::views(nodes@));
    (string_of(&best), best_mean)
}

proof fn lemma_seen_counted(s: Seq<Sample>)
    ensures
        forall|k: int| 0 <= k < first_seen(s).len() ==> count_of(s, #[trigger] first_seen(s)[k]) > 0,
    decreases s.len(),
{
    if s.len() > 0 {
        let d = s.drop_last();
        lemma_seen_counted(d);
        lemma_count_grows(s);
        let f = first_seen(s);
        let fd = first_seen(d);
        assert forall|k: int| 0 <= k < f.len() implies count_of(s, #[trigger] f[k]) > 0 by {
            if k < fd.len() {
                assert(f[k] == fd[k]);
                assert(count_of(d, fd[k]) > 0);
                assert(count_of(d, fd[k]) <= count_of(s, fd[k]));
            } else {
                assert(f[k] == s.last().0);
            }
        }
    }
}

proof fn lemma_count_grows(s: Seq<Sample>)
    requires
        s.len() > 0,
    ensures
        forall|n: Seq<char>| count_of(s.drop_last(), n) <= #[trigger] count_of(s, n),
        count_of(s, s.last().0) > 0,
{
}

proof fn lemma_first_seen_nonempty(s: Seq<Sample>)
    requires
        s.len() > 0,
    ensures
        first_seen(s).len() > 0,
    decreases s.len(),
{
    if s.len() > 1 {
        lemma_first_seen_nonempty(s.drop_last());
    }
}

} // verus!
