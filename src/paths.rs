use vstd::prelude::*;
use crate::graph::GFAdigraph;
use crate::scc::reaches;

verus! {

/// The depth past which the quota-bounded search gives up.
pub const MAX_RECURSION_DEPTH: usize = 1000;

/// The number of unmarked entries.
pub open spec fn unvisited(v: Seq<bool>) -> nat
    decreases v.len(),
{
    if v.len() == 0 {
        0
    } else {
        unvisited(v.drop_last()) + if v.last() {
            0nat
        } else {
            1nat
        }
    }
}

/// Each path of `ps`, with `c` put in front.
pub open spec fn prefix_all(c: usize, ps: Seq<Seq<usize>>) -> Seq<Seq<usize>> {
    Seq::new(ps.len(), |i: int| seq![c] + ps[i])
}

pub open spec fn paths_view(v: Vec<Vec<usize>>) -> Seq<Seq<usize>> {
    v@.map_values(|p: Vec<usize>| p@)
}

/// Depth-first enumeration of the paths from `cur` to `end` that avoid the
/// marked nodes; `budget` bounds the recursion and is never the binding limit
/// when it is at least the number of unmarked nodes.
pub open spec fn plain_from(
    g: GFAdigraph,
    cur: usize,
    end: usize,
    visited: Seq<bool>,
    budget: nat,
) -> Seq<Seq<usize>>
    decreases budget, g.edges@.len() + 1,
{
    if cur == end {
        seq![seq![end]]
    } else {
        plain_via(g, cur, end, visited, budget, 0)
    }
}

/// The paths of `plain_from` that leave `cur` through edge `k` or a later one,
/// in edge order.
pub open spec fn plain_via(
    g: GFAdigraph,
    cur: usize,
    end: usize,
    visited: Seq<bool>,
    budget: nat,
    k: nat,
) -> Seq<Seq<usize>>
    decreases budget, g.edges@.len() - k,
{
    if k >= g.edges@.len() {
        seq![]
    } else {
        let t = g.edges@[k as int].1;
        let rest = plain_via(g, cur, end, visited, budget, k + 1);
        if g.edges@[k as int].0 == cur && t < visited.len() && !visited[t as int] && budget > 0 {
            prefix_all(cur, plain_from(g, t, end, visited.update(t as int, true), (budget - 1) as nat))
                + rest
        } else {
            rest
        }
    }
}

/// All paths from `start` to `end` on which no node repeats, in the order a
/// depth-first search over the stored edge order meets them.
pub open spec fn simple_paths(g: GFAdigraph, start: usize, end: usize) -> Seq<Seq<usize>> {
    plain_from(
        g,
        start,
        end,
        Seq::new(g.labels@.len(), |i: int| false).update(start as int, true),
        (g.labels@.len() - 1) as nat,
    )
}

proof fn lemma_unvisited_mark(v: Seq<bool>, t: int)
    requires
        0 <= t < v.len(),
        !v[t],
    ensures
        unvisited(v.update(t, true)) + 1 == unvisited(v),
    decreases v.len(),
{
    let u = v.update(t, true);
    if t == v.len() - 1 {
        assert(u.drop_last() =~= v.drop_last());
    } else {
        assert(u.drop_last() =~= v.drop_last().update(t, true));
        lemma_unvisited_mark(v.drop_last(), t);
    }
}

proof fn lemma_unvisited_none(n: nat)
    ensures
        unvisited(Seq::new(n, |i: int| false)) == n,
    decreases n,
{
    if n > 0 {
        assert(Seq::new(n, |i: int| false).drop_last() =~= Seq::new((n - 1) as nat, |i: int| false));
        lemma_unvisited_none((n - 1) as nat);
    }
}

fn prefixed(c: usize, p: &Vec<usize>) -> (r: Vec<usize>)
    ensures
        r@ == seq![c] + p@,
{
    let mut r: Vec<usize> = Vec::new();
    r.push(c);
    let mut i: usize = 0;
    while i < p.len()
        invariant
            i <= p@.len(),
            r@ == seq![c] + p@.take(i as int),
        decreases p@.len() - i,
    {
        r.push(p[i]);
        i += 1;
        assert(r@ =~= seq![c] + p@.take(i as int));
    }
    assert(p@.take(i as int) =~= p@);
    r
}

/// Appends each path of `desc`, with `c` put in front, to `paths`.
fn push_prefixed(paths: &mut Vec<Vec<usize>>, c: usize, desc: &Vec<Vec<usize>>)
    ensures
        paths_view(*final(paths)) == paths_view(*old(paths)) + prefix_all(c, paths_view(*desc)),
{
    let ghost start = paths_view(*paths);
    let mut i: usize = 0;
    while i < desc.len()
        invariant
            i <= desc@.len(),
            paths_view(*paths) == start + prefix_all(c, paths_view(*desc)).take(i as int),
        decreases desc@.len() - i,
    {
        let np = prefixed(c, &desc[i]);
        let ghost old_paths = *paths;
        paths.push(np);
        proof {
            assert(paths_view(*desc)[i as int] == desc@[i as int]@);
            assert(paths@ == old_paths@.push(np));
            assert(paths_view(*paths) =~= paths_view(old_paths).push(np@));
        }
        i += 1;
        assert(paths_view(*paths) =~= start + prefix_all(c, paths_view(*desc)).take(i as int));
    }
    assert(prefix_all(c, paths_view(*desc)).take(i as int) =~= prefix_all(c, paths_view(*desc)));
}

fn plain_search(
    g: &GFAdigraph,
    cur: usize,
    end: usize,
    visited: &mut Vec<bool>,
    remaining: usize,
) -> (r: Vec<Vec<usize>>)
    requires
        g.wf(),
        old(visited)@.len() == g.labels@.len(),
        remaining == unvisited(old(visited)@),
    ensures
        final(visited)@ == old(visited)@,
        paths_view(r) == plain_from(*g, cur, end, old(visited)@, remaining as nat),
        forall|j: int|
            0 <= j < r@.len() ==> joins(*g, #[trigger] paths_view(r)[j], cur, end) && fresh_after(
                paths_view(r)[j],
                old(visited)@,
            ) && (cur < old(visited)@.len() && old(visited)@[cur as int] ==> no_repeats(
                paths_view(r)[j],
            )),
    decreases remaining,
{
    proof {
        lemma_plain_from(*g, cur, end, visited@, remaining as nat);
    }
    if cur == end {
        let mut p: Vec<usize> = Vec::new();
        p.push(end);
        let mut r: Vec<Vec<usize>> = Vec::new();
        r.push(p);
        assert(paths_view(r)[0] == r@[0]@);
        assert(paths_view(r) =~= seq![seq![end]]);
        return r;
    }
    let ghost v0 = visited@;
    let mut paths: Vec<Vec<usize>> = Vec::new();
    let mut k: usize = 0;
    while k < g.edges.len()
        invariant
            g.wf(),
            k <= g.edges@.len(),
            visited@ == v0,
            v0.len() == g.labels@.len(),
            remaining == unvisited(v0),
            cur != end,
            paths_view(paths) + plain_via(*g, cur, end, v0, remaining as nat, k as nat)
                == plain_via(*g, cur, end, v0, remaining as nat, 0),
        decreases g.edges@.len() - k,
    {
        let (a, t) = g.edges[k];
        assert(t < g.labels@.len());
        let ghost rest = plain_via(*g, cur, end, v0, remaining as nat, (k + 1) as nat);
        if a == cur && !visited[t] {
            proof {
                lemma_unvisited_mark(v0, t as int);
            }
            visited.set(t, true);
            let desc = plain_search(g, t, end, visited, remaining - 1);
            visited.set(t, false);
            assert(visited@ =~= v0);
            let ghost before = paths_view(paths);
            push_prefixed(&mut paths, cur, &desc);
            assert(paths_view(paths) + rest =~= before + (prefix_all(
                cur,
                paths_view(desc),
            ) + rest));
        }
        k += 1;
    }
    assert(paths_view(paths) + seq![] =~= paths_view(paths));
    proof {
        lemma_plain_from(*g, cur, end, v0, remaining as nat);
        let pv = paths_view(paths);
        assert(pv.len() == paths@.len());
        assert(pv == plain_from(*g, cur, end, v0, remaining as nat));
        assert forall|j: int| 0 <= j < paths@.len() implies joins(*g, #[trigger] pv[j], cur, end)
            && fresh_after(pv[j], v0) && (cur < v0.len() && v0[cur as int] ==> no_repeats(pv[j])) by {
            assert(pv[j] == plain_from(*g, cur, end, v0, remaining as nat)[j]);
        }
    }
    paths
}

/// Depth-first enumeration of the paths from `cur` to `end` in which each
/// node `v` may be entered while its count on the current path stays within
/// `quota[v]`. `None` when the search goes deeper than `limit`.
pub open spec fn quota_from(
    g: GFAdigraph,
    quota: Seq<usize>,
    cur: usize,
    end: usize,
    counts: Seq<usize>,
    depth: nat,
    limit: nat,
) -> Option<Seq<Seq<usize>>>
    decreases limit + 1 - depth, g.edges@.len() + 1,
{
    if depth > limit {
        None
    } else if cur == end {
        Some(seq![seq![end]])
    } else {
        quota_via(g, quota, cur, end, counts, depth, limit, 0)
    }
}

/// The part of `quota_from` that leaves `cur` through edge `k` or a later one.
pub open spec fn quota_via(
    g: GFAdigraph,
    quota: Seq<usize>,
    cur: usize,
    end: usize,
    counts: Seq<usize>,
    depth: nat,
    limit: nat,
    k: nat,
) -> Option<Seq<Seq<usize>>>
    decreases limit + 1 - depth, g.edges@.len() - k,
{
    if depth > limit {
        None
    } else if k >= g.edges@.len() {
        Some(seq![])
    } else {
        let t = g.edges@[k as int].1;
        if g.edges@[k as int].0 == cur && t < counts.len() && t < quota.len() && counts[t as int]
            < quota[t as int] {
            match quota_from(
                g,
                quota,
                t,
                end,
                counts.update(t as int, (counts[t as int] + 1) as usize),
                depth + 1,
                limit,
            ) {
                None => None,
                Some(ps) => match quota_via(g, quota, cur, end, counts, depth, limit, k + 1) {
                    None => None,
                    Some(rest) => Some(prefix_all(cur, ps) + rest),
                },
            }
        } else {
            quota_via(g, quota, cur, end, counts, depth, limit, k + 1)
        }
    }
}

/// The quota-bounded search from `start`, which counts as entered once.
pub open spec fn quota_paths(
    g: GFAdigraph,
    quota: Seq<usize>,
    start: usize,
    end: usize,
    limit: nat,
) -> Option<Seq<Seq<usize>>> {
    quota_from(
        g,
        quota,
        start,
        end,
        Seq::new(g.labels@.len(), |i: int| 0usize).update(start as int, 1usize),
        0,
        limit,
    )
}

/// What `all_paths_with_limit` returns: the quota-bounded paths when a quota
/// map is given and the search stays within `limit`, the simple paths
/// otherwise.
pub open spec fn enumerated_paths(
    g: GFAdigraph,
    start: usize,
    end: usize,
    quota: Option<Seq<usize>>,
    limit: nat,
) -> Seq<Seq<usize>> {
    match quota {
        None => simple_paths(g, start, end),
        Some(q) => match quota_paths(g, q, start, end, limit) {
            Some(ps) => ps,
            None => simple_paths(g, start, end),
        },
    }
}

pub open spec fn opt_paths_view(r: Option<Vec<Vec<usize>>>) -> Option<Seq<Seq<usize>>> {
    match r {
        None => None,
        Some(v) => Some(paths_view(v)),
    }
}

fn quota_search(
    g: &GFAdigraph,
    quota: &Vec<usize>,
    cur: usize,
    end: usize,
    counts: &mut Vec<usize>,
    depth: usize,
    limit: usize,
) -> (r: Option<Vec<Vec<usize>>>)
    requires
        g.wf(),
        old(counts)@.len() == g.labels@.len(),
        quota@.len() == g.labels@.len(),
        depth <= limit + 1,
    ensures
        final(counts)@ == old(counts)@,
        opt_paths_view(r) == quota_from(
            *g,
            quota@,
            cur,
            end,
            old(counts)@,
            depth as nat,
            limit as nat,
        ),
        opt_paths_view(r) matches Some(ps) ==> forall|j: int|
            0 <= j < ps.len() ==> joins(*g, #[trigger] ps[j], cur, end) && (counts_within(
                old(counts)@,
                quota@,
            ) ==> within_quota_after(ps[j], old(counts)@, quota@)),
    decreases limit + 1 - depth,
{
    proof {
        lemma_quota_from(*g, quota@, cur, end, counts@, depth as nat, limit as nat);
    }
    if depth > limit {
        return None;
    }
    if cur == end {
        let mut p: Vec<usize> = Vec::new();
        p.push(end);
        let mut r: Vec<Vec<usize>> = Vec::new();
        r.push(p);
        assert(paths_view(r)[0] == r@[0]@);
        assert(paths_view(r) =~= seq![seq![end]]);
        return Some(r);
    }
    let ghost c0 = counts@;
    let mut paths: Vec<Vec<usize>> = Vec::new();
    let mut k: usize = 0;
    while k < g.edges.len()
        invariant
            g.wf(),
            k <= g.edges@.len(),
            counts@ == c0,
            c0 == old(counts)@,
            c0.len() == g.labels@.len(),
            quota@.len() == g.labels@.len(),
            depth <= limit,
            cur != end,
            quota_via(*g, quota@, cur, end, c0, depth as nat, limit as nat, 0) == match quota_via(
                *g,
                quota@,
                cur,
                end,
                c0,
                depth as nat,
                limit as nat,
                k as nat,
            ) {
                None => None,
                Some(rest) => Some(paths_view(paths) + rest),
            },
        decreases g.edges@.len() - k,
    {
        let (a, t) = g.edges[k];
        assert(t < g.labels@.len());
        if a == cur && counts[t] < quota[t] {
            if depth >= limit {
                assert(quota_from(
                    *g,
                    quota@,
                    t,
                    end,
                    c0.update(t as int, (c0[t as int] + 1) as usize),
                    (depth + 1) as nat,
                    limit as nat,
                ) is None);
                assert(quota_via(*g, quota@, cur, end, c0, depth as nat, limit as nat, k as nat)
                    is None);
                return None;
            }
            let n = counts[t];
            counts.set(t, n + 1);
            let desc = quota_search(g, quota, t, end, counts, depth + 1, limit);
            counts.set(t, n);
            assert(counts@ =~= c0);
            match desc {
                None => {
                    return None;
                },
                Some(desc) => {
                    let ghost before = paths_view(paths);
                    push_prefixed(&mut paths, cur, &desc);
                    proof {
                        let ghost nx = quota_via(
                            *g,
                            quota@,
                            cur,
                            end,
                            c0,
                            depth as nat,
                            limit as nat,
                            (k + 1) as nat,
                        );
                        if let Some(rest) = nx {
                            assert(paths_view(paths) + rest =~= before + (prefix_all(
                                cur,
                                paths_view(desc),
                            ) + rest));
                        }
                    }
                },
            }
        }
        k += 1;
    }
    assert(paths_view(paths) + seq![] =~= paths_view(paths));
    Some(paths)
}

fn simple_search(g: &GFAdigraph, start: usize, end: usize) -> (r: Vec<Vec<usize>>)
    requires
        g.wf(),
        start < g.labels@.len(),
    ensures
        paths_view(r) == simple_paths(*g, start, end),
{
    let n = g.labels.len();
    let mut visited: Vec<bool> = Vec::new();
    let mut i: usize = 0;
    while i < n
        invariant
            i <= n,
            n == g.labels@.len(),
            visited@ == Seq::new(i as nat, |j: int| false),
        decreases n - i,
    {
        visited.push(false);
        i += 1;
        assert(visited@ =~= Seq::new(i as nat, |j: int| false));
    }
    proof {
        lemma_unvisited_none(n as nat);
        lemma_unvisited_mark(visited@, start as int);
    }
    visited.set(start, true);
    plain_search(g, start, end, &mut visited, n - 1)
}

/// Enumerates the paths from `start_node` to `end_node`, as `all_paths`
/// does, with the depth cutoff of the quota-bounded search set to `limit`.
pub fn all_paths_with_limit(
    graph: &GFAdigraph,
    start_node: usize,
    end_node: usize,
    rel_coverage_map: Option<&Vec<usize>>,
    limit: usize,
) -> (r: Vec<Vec<usize>>)
    requires
        graph.wf(),
        start_node < graph.labels@.len(),
        match rel_coverage_map {
            Some(q) => q@.len() == graph.labels@.len(),
            None => true,
        },
    ensures
        paths_view(r) == enumerated_paths(
            *graph,
            start_node,
            end_node,
            match rel_coverage_map {
                Some(q) => Some(q@),
                None => None,
            },
            limit as nat,
        ),
{
    match rel_coverage_map {
        Some(quota) => {
            let n = graph.labels.len();
            let mut counts: Vec<usize> = Vec::new();
            let mut i: usize = 0;
            while i < n
                invariant
                    i <= n,
                    n == graph.labels@.len(),
                    counts@ == Seq::new(i as nat, |j: int| 0usize),
                decreases n - i,
            {
                counts.push(0);
                i += 1;
                assert(counts@ =~= Seq::new(i as nat, |j: int| 0usize));
            }
            counts.set(start_node, 1);
            match quota_search(graph, quota, start_node, end_node, &mut counts, 0, limit) {
                Some(p) => p,
                None => simple_search(graph, start_node, end_node),
            }
        },
        None => simple_search(graph, start_node, end_node),
    }
}

/// Enumerates the paths from `start_node` to `end_node`.
///
/// Without a coverage map, these are the paths on which no node repeats.
/// With one, node `v` may appear up to `rel_coverage_map[v]` times; if that
/// search goes deeper than `MAX_RECURSION_DEPTH`, the paths without repeats
/// are returned instead. Paths come in depth-first order over the stored
/// edge order.
pub fn all_paths(
    graph: &GFAdigraph,
    start_node: usize,
    end_node: usize,
    rel_coverage_map: Option<&Vec<usize>>,
) -> (r: Vec<Vec<usize>>)
    requires
        graph.wf(),
        start_node < graph.labels@.len(),
        match rel_coverage_map {
            Some(q) => q@.len() == graph.labels@.len(),
            None => true,
        },
    ensures
        paths_view(r) == enumerated_paths(
            *graph,
            start_node,
            end_node,
            match rel_coverage_map {
                Some(q) => Some(q@),
                None => None,
            },
            MAX_RECURSION_DEPTH as nat,
        ),
{
    all_paths_with_limit(graph, start_node, end_node, rel_coverage_map, MAX_RECURSION_DEPTH)
}

/// `p` is a walk from `s` to `e`: it starts at `s`, ends at `e`, and each
/// consecutive pair is joined by an edge.
pub open spec fn joins(g: GFAdigraph, p: Seq<usize>, s: usize, e: usize) -> bool {
    &&& p.len() > 0
    &&& p[0] == s
    &&& p[p.len() - 1] == e
    &&& forall|i: int| 0 <= i < p.len() - 1 ==> #[trigger] g.has_edge(p[i], p[i + 1])
}

/// No node appears twice in `p`.
pub open spec fn no_repeats(p: Seq<usize>) -> bool {
    forall|i: int, j: int| 0 <= i < j < p.len() ==> p[i] != p[j]
}

/// How many times `v` appears in `p`.
pub open spec fn occurrences(p: Seq<usize>, v: usize) -> nat
    decreases p.len(),
{
    if p.len() == 0 {
        0
    } else {
        occurrences(p.subrange(1, p.len() as int), v) + if p[0] == v {
            1nat
        } else {
            0nat
        }
    }
}

/// The counts and the quotas cover the same nodes, and no count exceeds its
/// quota.
pub open spec fn counts_within(counts: Seq<usize>, quota: Seq<usize>) -> bool {
    &&& counts.len() == quota.len()
    &&& forall|v: int| 0 <= v < counts.len() ==> counts[v] <= quota[v]
}

/// Every node after the first is unmarked in `visited`.
pub open spec fn fresh_after(p: Seq<usize>, visited: Seq<bool>) -> bool {
    forall|i: int| 1 <= i < p.len() ==> p[i] < visited.len() && !visited[#[trigger] p[i] as int]
}

/// The nodes after the first, with the counts already on the path, stay
/// within their quotas.
pub open spec fn within_quota_after(p: Seq<usize>, counts: Seq<usize>, quota: Seq<usize>) -> bool {
    &&& forall|i: int| 1 <= i < p.len() ==> #[trigger] p[i] < counts.len()
    &&& forall|v: usize|
        v < counts.len() ==> counts[v as int] + #[trigger] occurrences(
            p.subrange(1, p.len() as int),
            v,
        ) <= quota[v as int]
}

proof fn lemma_prefix_path(g: GFAdigraph, cur: usize, k: int, q: Seq<usize>, end: usize)
    requires
        0 <= k < g.edges@.len(),
        g.edges@[k].0 == cur,
        joins(g, q, g.edges@[k].1, end),
    ensures
        joins(g, seq![cur] + q, cur, end),
        (seq![cur] + q).subrange(1, (seq![cur] + q).len() as int) == q,
{
    let p = seq![cur] + q;
    assert(g.edges@[k] == (cur, q[0]));
    assert(g.has_edge(cur, q[0]));
    assert forall|i: int| 0 <= i < p.len() - 1 implies #[trigger] g.has_edge(p[i], p[i + 1]) by {
        if i == 0 {
            assert(p[0] == cur && p[1] == q[0]);
        } else {
            let i2 = i - 1;
            assert(g.has_edge(q[i2], q[i2 + 1]));
            assert(p[i] == q[i2] && p[i + 1] == q[i2 + 1]);
        }
    }
    assert(p.subrange(1, p.len() as int) =~= q);
}

proof fn lemma_plain_from(g: GFAdigraph, cur: usize, end: usize, visited: Seq<bool>, budget: nat)
    ensures
        forall|j: int|
            0 <= j < plain_from(g, cur, end, visited, budget).len() ==> {
                let p = #[trigger] plain_from(g, cur, end, visited, budget)[j];
                &&& joins(g, p, cur, end)
                &&& fresh_after(p, visited)
                &&& (cur < visited.len() && visited[cur as int]) ==> no_repeats(p)
            },
    decreases budget, g.edges@.len() + 1,
{
    if cur != end {
        lemma_plain_via(g, cur, end, visited, budget, 0);
        assert(plain_from(g, cur, end, visited, budget) == plain_via(g, cur, end, visited, budget, 0));
    } else {
        let p = seq![end];
        assert(plain_from(g, cur, end, visited, budget) == seq![p]);
        assert(joins(g, p, cur, end));
    }
}

proof fn lemma_plain_via(
    g: GFAdigraph,
    cur: usize,
    end: usize,
    visited: Seq<bool>,
    budget: nat,
    k: nat,
)
    ensures
        forall|j: int|
            0 <= j < plain_via(g, cur, end, visited, budget, k).len() ==> {
                let p = #[trigger] plain_via(g, cur, end, visited, budget, k)[j];
                &&& joins(g, p, cur, end)
                &&& fresh_after(p, visited)
                &&& (cur < visited.len() && visited[cur as int]) ==> no_repeats(p)
            },
    decreases budget, g.edges@.len() - k,
{
    if k < g.edges@.len() {
        let t = g.edges@[k as int].1;
        let rest = plain_via(g, cur, end, visited, budget, k + 1);
        lemma_plain_via(g, cur, end, visited, budget, k + 1);
        if g.edges@[k as int].0 == cur && t < visited.len() && !visited[t as int] && budget > 0 {
            let v2 = visited.update(t as int, true);
            let sub = plain_from(g, t, end, v2, (budget - 1) as nat);
            lemma_plain_from(g, t, end, v2, (budget - 1) as nat);
            let all = prefix_all(cur, sub) + rest;
            assert forall|j: int| 0 <= j < all.len() implies {
                let p = #[trigger] all[j];
                &&& joins(g, p, cur, end)
                &&& fresh_after(p, visited)
                &&& (cur < visited.len() && visited[cur as int]) ==> no_repeats(p)
            } by {
                if j < sub.len() {
                    let q = sub[j];
                    let p = seq![cur] + q;
                    assert(all[j] == p);
                    lemma_prefix_path(g, cur, k as int, q, end);
                    assert forall|i: int| 1 <= i < p.len() implies p[i] < visited.len()
                        && !visited[#[trigger] p[i] as int] by {
                        assert(p[i] == q[i - 1]);
                        if i > 1 {
                            assert(!v2[q[i - 1] as int]);
                        }
                    }
                    if cur < visited.len() && visited[cur as int] {
                        assert forall|a: int, b: int| 0 <= a < b < p.len() implies p[a] != p[b] by {
                            assert(p[b] == q[b - 1]);
                            if a > 0 {
                                assert(p[a] == q[a - 1]);
                            }
                        }
                    }
                } else {
                    assert(all[j] == rest[j - sub.len()]);
                }
            }
        }
    }
}

proof fn lemma_occurrences_front(c: usize, q: Seq<usize>, v: usize)
    ensures
        occurrences(seq![c] + q, v) == occurrences(q, v) + if c == v {
            1nat
        } else {
            0nat
        },
{
    let p = seq![c] + q;
    assert(p.subrange(1, p.len() as int) =~= q);
}

proof fn lemma_quota_from(
    g: GFAdigraph,
    quota: Seq<usize>,
    cur: usize,
    end: usize,
    counts: Seq<usize>,
    depth: nat,
    limit: nat,
)
    ensures
        quota_from(g, quota, cur, end, counts, depth, limit) matches Some(ps) ==> forall|j: int|
            0 <= j < ps.len() ==> joins(g, #[trigger] ps[j], cur, end) && (counts_within(
                counts,
                quota,
            ) ==> within_quota_after(ps[j], counts, quota)),
    decreases limit + 1 - depth, g.edges@.len() + 1,
{
    if depth <= limit {
        if cur == end {
            let p = seq![end];
            assert(p.subrange(1, 1) =~= Seq::<usize>::empty());
        } else {
            lemma_quota_via(g, quota, cur, end, counts, depth, limit, 0);
        }
    }
}

proof fn lemma_quota_via(
    g: GFAdigraph,
    quota: Seq<usize>,
    cur: usize,
    end: usize,
    counts: Seq<usize>,
    depth: nat,
    limit: nat,
    k: nat,
)
    ensures
        quota_via(g, quota, cur, end, counts, depth, limit, k) matches Some(ps) ==> forall|j: int|
            0 <= j < ps.len() ==> joins(g, #[trigger] ps[j], cur, end) && (counts_within(
                counts,
                quota,
            ) ==> within_quota_after(ps[j], counts, quota)),
    decreases limit + 1 - depth, g.edges@.len() - k,
{
    if depth <= limit && k < g.edges@.len() {
        let t = g.edges@[k as int].1;
        lemma_quota_via(g, quota, cur, end, counts, depth, limit, k + 1);
        if g.edges@[k as int].0 == cur && t < counts.len() && t < quota.len() && counts[t as int]
            < quota[t as int] {
            let c2 = counts.update(t as int, (counts[t as int] + 1) as usize);
            lemma_quota_from(g, quota, t, end, c2, depth + 1, limit);
            if let Some(sub) = quota_from(g, quota, t, end, c2, depth + 1, limit) {
                if let Some(rest) = quota_via(g, quota, cur, end, counts, depth, limit, k + 1) {
                    let all = prefix_all(cur, sub) + rest;
                    assert forall|j: int| 0 <= j < all.len() implies joins(g, #[trigger] all[j], cur, end)
                        && (counts_within(counts, quota) ==> within_quota_after(
                        all[j],
                        counts,
                        quota,
                    )) by {
                        if j < sub.len() {
                            let q = sub[j];
                            let p = seq![cur] + q;
                            assert(all[j] == p);
                            lemma_prefix_path(g, cur, k as int, q, end);
                            if counts_within(counts, quota) {
                                assert(counts_within(c2, quota));
                                assert forall|i: int| 1 <= i < p.len() implies #[trigger] p[i]
                                    < counts.len() by {
                                    assert(p[i] == q[i - 1]);
                                }
                                assert forall|v: usize| v < counts.len() implies counts[v as int]
                                    + #[trigger] occurrences(p.subrange(1, p.len() as int), v)
                                    <= quota[v as int] by {
                                    assert(q == seq![q[0]] + q.subrange(1, q.len() as int));
                                    lemma_occurrences_front(q[0], q.subrange(1, q.len() as int), v);
                                }
                            }
                        } else {
                            assert(all[j] == rest[j - sub.len()]);
                        }
                    }
                }
            }
        }
    }
}

/// Every enumerated path starts at `start`, ends at `end`, and follows an
/// edge of the graph at each step, with or without a quota map.
pub proof fn lemma_paths_follow_edges(
    g: GFAdigraph,
    start: usize,
    end: usize,
    quota: Option<Seq<usize>>,
    limit: nat,
)
    requires
        start < g.labels@.len(),
        quota matches Some(q) ==> q.len() == g.labels@.len(),
    ensures
        forall|j: int|
            0 <= j < enumerated_paths(g, start, end, quota, limit).len() ==> joins(
                g,
                #[trigger] enumerated_paths(g, start, end, quota, limit)[j],
                start,
                end,
            ),
{
    let n = g.labels@.len();
    let v0 = Seq::new(n, |i: int| false).update(start as int, true);
    lemma_plain_from(g, start, end, v0, (n - 1) as nat);
    if let Some(q) = quota {
        let c0 = Seq::new(n, |i: int| 0usize).update(start as int, 1usize);
        lemma_quota_from(g, q, start, end, c0, 0, limit);
    }
}

/// Without a quota map, no node appears twice in an enumerated path.
pub proof fn lemma_simple_paths_no_repeats(g: GFAdigraph, start: usize, end: usize, limit: nat)
    requires
        start < g.labels@.len(),
    ensures
        forall|j: int|
            0 <= j < enumerated_paths(g, start, end, None, limit).len() ==> no_repeats(
                #[trigger] enumerated_paths(g, start, end, None, limit)[j],
            ),
{
    let n = g.labels@.len();
    let v0 = Seq::new(n, |i: int| false).update(start as int, true);
    lemma_plain_from(g, start, end, v0, (n - 1) as nat);
}

proof fn lemma_occurrences_facts(p: Seq<usize>, v: usize)
    ensures
        no_repeats(p) ==> occurrences(p, v) <= 1,
        occurrences(p, v) > 0 ==> exists|i: int| 0 <= i < p.len() && p[i] == v,
    decreases p.len(),
{
    if p.len() > 0 {
        let rest = p.subrange(1, p.len() as int);
        lemma_occurrences_facts(rest, v);
        if occurrences(rest, v) > 0 {
            let i = choose|i: int| 0 <= i < rest.len() && rest[i] == v;
            assert(p[i + 1] == v);
        }
        if no_repeats(p) {
            assert forall|a: int, b: int| 0 <= a < b < rest.len() implies rest[a] != rest[b] by {
                assert(rest[a] == p[a + 1] && rest[b] == p[b + 1]);
            }
            if p[0] == v && occurrences(rest, v) > 0 {
                let i = choose|i: int| 0 <= i < rest.len() && rest[i] == v;
                assert(p[i + 1] == v);
            }
        }
        if occurrences(p, v) > 0 && p[0] == v {
            assert(p[0] == v);
        }
    }
}

proof fn lemma_prefix_reaches(g: GFAdigraph, p: Seq<usize>, s: usize, e: usize, i: int)
    requires
        joins(g, p, s, e),
        0 <= i < p.len(),
    ensures
        reaches(g, s, p[i]),
{
    let w = p.take(i + 1);
    assert forall|x: int| 0 <= x < w.len() - 1 implies #[trigger] g.has_edge(w[x], w[x + 1]) by {
        assert(g.has_edge(p[x], p[x + 1]));
    }
    assert(joins(g, w, s, p[i]));
}

/// With a quota map whose quota is at least one at every node reachable from
/// `start`, no node appears in an enumerated path more often than its quota,
/// whether the quota-bounded search stays within the depth limit or the
/// paths without repeats are returned instead.
pub proof fn lemma_quota_respected(
    g: GFAdigraph,
    start: usize,
    end: usize,
    quota: Seq<usize>,
    limit: nat,
)
    requires
        start < g.labels@.len(),
        quota.len() == g.labels@.len(),
        forall|v: usize| v < g.labels@.len() && #[trigger] reaches(g, start, v) ==> quota[v as int] >= 1,
    ensures
        forall|j: int, v: usize|
            0 <= j < enumerated_paths(g, start, end, Some(quota), limit).len() && v
                < g.labels@.len() ==> #[trigger] occurrences(
                enumerated_paths(g, start, end, Some(quota), limit)[j],
                v,
            ) <= quota[v as int],
{
    let n = g.labels@.len();
    let ps = enumerated_paths(g, start, end, Some(quota), limit);
    lemma_paths_follow_edges(g, start, end, Some(quota), limit);
    let single = seq![start];
    assert(joins(g, single, start, start));
    assert(reaches(g, start, start));
    match quota_paths(g, quota, start, end, limit) {
        Some(_) => {
            let c0 = Seq::new(n, |i: int| 0usize).update(start as int, 1usize);
            assert(counts_within(c0, quota));
            lemma_quota_from(g, quota, start, end, c0, 0, limit);
            assert forall|j: int, v: usize| 0 <= j < ps.len() && v < n implies #[trigger] occurrences(
                ps[j],
                v,
            ) <= quota[v as int] by {
                let p = ps[j];
                assert(p == seq![p[0]] + p.subrange(1, p.len() as int));
                lemma_occurrences_front(p[0], p.subrange(1, p.len() as int), v);
            }
        },
        None => {
            lemma_simple_paths_no_repeats(g, start, end, limit);
            assert forall|j: int, v: usize| 0 <= j < ps.len() && v < n implies #[trigger] occurrences(
                ps[j],
                v,
            ) <= quota[v as int] by {
                let p = ps[j];
                assert(ps == enumerated_paths(g, start, end, None, limit));
                lemma_occurrences_facts(p, v);
                if occurrences(p, v) > 0 {
                    let i = choose|i: int| 0 <= i < p.len() && p[i] == v;
                    lemma_prefix_reaches(g, p, start, end, i);
                }
            }
        },
    }
}

/// When the quota-bounded search goes past the depth limit, the result is
/// exactly the one returned without a quota map.
pub proof fn lemma_fallback_to_simple(
    g: GFAdigraph,
    start: usize,
    end: usize,
    quota: Seq<usize>,
    limit: nat,
)
    requires
        quota_paths(g, quota, start, end, limit) is None,
    ensures
        enumerated_paths(g, start, end, Some(quota), limit) == enumerated_paths(
            g,
            start,
            end,
            None,
            limit,
        ),
{
}

proof fn lemma_via_includes(
    g: GFAdigraph,
    cur: usize,
    end: usize,
    visited: Seq<bool>,
    budget: nat,
    j: nat,
    k: nat,
    q: Seq<usize>,
)
    requires
        j <= k < g.edges@.len(),
        g.edges@[k as int].0 == cur,
        g.edges@[k as int].1 < visited.len(),
        !visited[g.edges@[k as int].1 as int],
        budget > 0,
        plain_from(
            g,
            g.edges@[k as int].1,
            end,
            visited.update(g.edges@[k as int].1 as int, true),
            (budget - 1) as nat,
        ).contains(q),
    ensures
        plain_via(g, cur, end, visited, budget, j).contains(seq![cur] + q),
    decreases k - j,
{
    let rest = plain_via(g, cur, end, visited, budget, j + 1);
    if j == k {
        let t = g.edges@[k as int].1;
        let sub = plain_from(g, t, end, visited.update(t as int, true), (budget - 1) as nat);
        let x = choose|x: int| 0 <= x < sub.len() && sub[x] == q;
        let all = prefix_all(cur, sub) + rest;
        assert(all[x] == seq![cur] + q);
    } else {
        lemma_via_includes(g, cur, end, visited, budget, j + 1, k, q);
        let x = choose|x: int| 0 <= x < rest.len() && rest[x] == seq![cur] + q;
        let t = g.edges@[j as int].1;
        if g.edges@[j as int].0 == cur && t < visited.len() && !visited[t as int] {
            let sub = plain_from(g, t, end, visited.update(t as int, true), (budget - 1) as nat);
            let all = prefix_all(cur, sub) + rest;
            assert(all[sub.len() + x] == seq![cur] + q);
        }
    }
}

proof fn lemma_plain_complete(
    g: GFAdigraph,
    cur: usize,
    end: usize,
    visited: Seq<bool>,
    budget: nat,
    p: Seq<usize>,
)
    requires
        g.wf(),
        visited.len() == g.labels@.len(),
        budget >= unvisited(visited),
        joins(g, p, cur, end),
        no_repeats(p),
        fresh_after(p, visited),
    ensures
        plain_from(g, cur, end, visited, budget).contains(p),
    decreases p.len(),
{
    if cur == end {
        if p.len() > 1 {
            assert(p[0] == p[p.len() - 1]);
        }
        assert(p =~= seq![end]);
        assert(plain_from(g, cur, end, visited, budget)[0] == p);
    } else {
        let t = p[1];
        let z: int = 0;
        assert(g.has_edge(p[z], p[z + 1]));
        let k = choose|k: int| 0 <= k < g.edges@.len() && #[trigger] g.edges@[k] == (cur, t);
        assert(t < visited.len() && !visited[t as int]);
        lemma_unvisited_mark(visited, t as int);
        let v2 = visited.update(t as int, true);
        let q = p.subrange(1, p.len() as int);
        assert forall|i: int| 0 <= i < q.len() - 1 implies #[trigger] g.has_edge(q[i], q[i + 1]) by {
            assert(g.has_edge(p[i + 1], p[(i + 1) + 1]));
        }
        assert forall|i: int| 1 <= i < q.len() implies q[i] < v2.len() && !v2[#[trigger] q[i] as int] by {
            assert(q[i] == p[i + 1]);
            assert(p[1] != p[i + 1]);
        }
        assert forall|a: int, b: int| 0 <= a < b < q.len() implies q[a] != q[b] by {
            assert(q[a] == p[a + 1] && q[b] == p[b + 1]);
        }
        lemma_plain_complete(g, t, end, v2, (budget - 1) as nat, q);
        lemma_via_includes(g, cur, end, visited, budget, 0, k as nat, q);
        assert(seq![cur] + q =~= p);
    }
}

/// Every walk from `start` to `end` on which no node repeats is among the
/// paths enumerated without a quota map.
pub proof fn lemma_simple_paths_complete(
    g: GFAdigraph,
    start: usize,
    end: usize,
    limit: nat,
    p: Seq<usize>,
)
    requires
        g.wf(),
        start < g.labels@.len(),
        joins(g, p, start, end),
        no_repeats(p),
    ensures
        enumerated_paths(g, start, end, None, limit).contains(p),
{
    let n = g.labels@.len();
    let v0 = Seq::new(n, |i: int| false).update(start as int, true);
    lemma_unvisited_none(n);
    lemma_unvisited_mark(Seq::new(n, |i: int| false), start as int);
    assert forall|i: int| 1 <= i < p.len() implies p[i] < v0.len() && !v0[#[trigger] p[i] as int] by {
        assert(g.has_edge(p[i - 1], p[(i - 1) + 1]));
        let k = choose|k: int| 0 <= k < g.edges@.len() && #[trigger] g.edges@[k] == (p[i - 1], p[i]);
        assert(g.edges@[k].0 < n && g.edges@[k].1 < n);
        assert(p[0] != p[i]);
    }
    lemma_plain_complete(g, start, end, v0, (n - 1) as nat, p);
}

proof fn lemma_quota_via_includes(
    g: GFAdigraph,
    quota: Seq<usize>,
    cur: usize,
    end: usize,
    counts: Seq<usize>,
    depth: nat,
    limit: nat,
    j: nat,
    k: nat,
    q: Seq<usize>,
)
    requires
        j <= k < g.edges@.len(),
        g.edges@[k as int].0 == cur,
        g.edges@[k as int].1 < counts.len(),
        g.edges@[k as int].1 < quota.len(),
        counts[g.edges@[k as int].1 as int] < quota[g.edges@[k as int].1 as int],
        quota_via(g, quota, cur, end, counts, depth, limit, j) is Some,
    ensures
        ({
            let t = g.edges@[k as int].1;
            quota_from(
                g,
                quota,
                t,
                end,
                counts.update(t as int, (counts[t as int] + 1) as usize),
                depth + 1,
                limit,
            ) matches Some(sub) && (sub.contains(q) ==> quota_via(
                g,
                quota,
                cur,
                end,
                counts,
                depth,
                limit,
                j,
            )->Some_0.contains(seq![cur] + q))
        }),
    decreases k - j,
{
    let t = g.edges@[k as int].1;
    let c2 = counts.update(t as int, (counts[t as int] + 1) as usize);
    if j == k {
        let sub = quota_from(g, quota, t, end, c2, depth + 1, limit)->Some_0;
        let rest = quota_via(g, quota, cur, end, counts, depth, limit, j + 1)->Some_0;
        if sub.contains(q) {
            let x = choose|x: int| 0 <= x < sub.len() && sub[x] == q;
            let all = prefix_all(cur, sub) + rest;
            assert(all[x] == seq![cur] + q);
        }
    } else {
        let tj = g.edges@[j as int].1;
        let rest = quota_via(g, quota, cur, end, counts, depth, limit, j + 1);
        if g.edges@[j as int].0 == cur && tj < counts.len() && tj < quota.len() && counts[tj as int]
            < quota[tj as int] {
            let subj = quota_from(
                g,
                quota,
                tj,
                end,
                counts.update(tj as int, (counts[tj as int] + 1) as usize),
                depth + 1,
                limit,
            );
            assert(subj is Some && rest is Some);
            lemma_quota_via_includes(g, quota, cur, end, counts, depth, limit, j + 1, k, q);
            let sub = quota_from(g, quota, t, end, c2, depth + 1, limit)->Some_0;
            if sub.contains(q) {
                let r = rest->Some_0;
                let x = choose|x: int| 0 <= x < r.len() && r[x] == seq![cur] + q;
                let all = prefix_all(cur, subj->Some_0) + r;
                assert(all[subj->Some_0.len() + x] == seq![cur] + q);
            }
        } else {
            lemma_quota_via_includes(g, quota, cur, end, counts, depth, limit, j + 1, k, q);
        }
    }
}

proof fn lemma_quota_complete(
    g: GFAdigraph,
    quota: Seq<usize>,
    cur: usize,
    end: usize,
    counts: Seq<usize>,
    depth: nat,
    limit: nat,
    p: Seq<usize>,
)
    requires
        g.wf(),
        counts.len() == g.labels@.len(),
        quota.len() == g.labels@.len(),
        joins(g, p, cur, end),
        forall|i: int| 0 <= i < p.len() - 1 ==> p[i] != end,
        forall|v: usize|
            v < counts.len() ==> counts[v as int] + #[trigger] occurrences(
                p.subrange(1, p.len() as int),
                v,
            ) <= quota[v as int],
        quota_from(g, quota, cur, end, counts, depth, limit) is Some,
    ensures
        quota_from(g, quota, cur, end, counts, depth, limit)->Some_0.contains(p),
    decreases p.len(),
{
    if cur == end {
        assert(p =~= seq![end]);
        assert(quota_from(g, quota, cur, end, counts, depth, limit)->Some_0[0] == p);
    } else {
        let z: int = 0;
        let t = p[1];
        assert(g.has_edge(p[z], p[z + 1]));
        let k = choose|k: int| 0 <= k < g.edges@.len() && #[trigger] g.edges@[k] == (cur, t);
        assert(g.edges@[k].0 < g.labels@.len() && g.edges@[k].1 < g.labels@.len());
        let q = p.subrange(1, p.len() as int);
        assert(q == seq![q[0]] + q.subrange(1, q.len() as int));
        lemma_occurrences_front(t, q.subrange(1, q.len() as int), t);
        assert(counts[t as int] + occurrences(q, t) <= quota[t as int]);
        let c2 = counts.update(t as int, (counts[t as int] + 1) as usize);
        assert forall|i: int| 0 <= i < q.len() - 1 implies #[trigger] g.has_edge(q[i], q[i + 1]) by {
            assert(g.has_edge(p[i + 1], p[(i + 1) + 1]));
        }
        assert forall|i: int| 0 <= i < q.len() - 1 implies q[i] != end by {
            assert(q[i] == p[i + 1]);
        }
        assert forall|v: usize| v < c2.len() implies c2[v as int] + #[trigger] occurrences(
            q.subrange(1, q.len() as int),
            v,
        ) <= quota[v as int] by {
            lemma_occurrences_front(t, q.subrange(1, q.len() as int), v);
            assert(counts[v as int] + occurrences(q, v) <= quota[v as int]);
        }
        assert(quota_from(g, quota, cur, end, counts, depth, limit) == quota_via(
            g,
            quota,
            cur,
            end,
            counts,
            depth,
            limit,
            0,
        ));
        lemma_quota_via_includes(g, quota, cur, end, counts, depth, limit, 0, k as nat, q);
        lemma_quota_complete(g, quota, t, end, c2, depth + 1, limit, q);
        assert(seq![cur] + q =~= p);
    }
}

/// When the quota-bounded search stays within the depth limit, every walk
/// from `start` to `end` that meets `end` only at its last node and in which
/// no node appears more often than its quota is among the enumerated paths.
pub proof fn lemma_quota_paths_complete(
    g: GFAdigraph,
    start: usize,
    end: usize,
    quota: Seq<usize>,
    limit: nat,
    p: Seq<usize>,
)
    requires
        g.wf(),
        start < g.labels@.len(),
        quota.len() == g.labels@.len(),
        quota_paths(g, quota, start, end, limit) is Some,
        joins(g, p, start, end),
        forall|i: int| 0 <= i < p.len() - 1 ==> p[i] != end,
        forall|v: usize| v < g.labels@.len() ==> #[trigger] occurrences(p, v) <= quota[v as int],
    ensures
        enumerated_paths(g, start, end, Some(quota), limit).contains(p),
{
    let n = g.labels@.len();
    let c0 = Seq::new(n, |i: int| 0usize).update(start as int, 1usize);
    assert forall|v: usize| v < c0.len() implies c0[v as int] + #[trigger] occurrences(
        p.subrange(1, p.len() as int),
        v,
    ) <= quota[v as int] by {
        assert(p == seq![p[0]] + p.subrange(1, p.len() as int));
        lemma_occurrences_front(p[0], p.subrange(1, p.len() as int), v);
        assert(occurrences(p, v) <= quota[v as int]);
    }
    lemma_quota_complete(g, quota, start, end, c0, 0, limit, p);
}

} // verus!
