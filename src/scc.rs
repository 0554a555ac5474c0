use vstd::prelude::*;
use crate::graph::GFAdigraph;
use crate::paths::joins;

verus! {

/// There is a walk from `u` to `v` (of length zero when `u == v`).
pub open spec fn reaches(g: GFAdigraph, u: usize, v: usize) -> bool {
    exists|p: Seq<usize>| joins(g, p, u, v)
}

/// `v` appears in some list of `comps`.
pub open spec fn is_member(comps: Seq<Seq<usize>>, v: usize) -> bool {
    exists|c: int, i: int| 0 <= c < comps.len() && 0 <= i < comps[c].len() && #[trigger] comps[c][i] == v
}

/// Each node below `n` lies in exactly one of `comps`, at exactly one
/// position, and the lists hold nothing else.
pub open spec fn is_partition(n: nat, comps: Seq<Seq<usize>>) -> bool {
    &&& forall|c: int, i: int|
        0 <= c < comps.len() && 0 <= i < comps[c].len() ==> #[trigger] comps[c][i] < n
    &&& forall|v: usize| v < n ==> #[trigger] is_member(comps, v)
    &&& forall|c1: int, i1: int, c2: int, i2: int|
        0 <= c1 < comps.len() && 0 <= i1 < comps[c1].len() && 0 <= c2 < comps.len() && 0 <= i2
            < comps[c2].len() && #[trigger] comps[c1][i1] == #[trigger] comps[c2][i2] ==> c1 == c2
            && i1 == i2
}

/// `comps` are the strongly connected components of `g`: a partition of its
/// nodes into non-empty lists, where two nodes share a list exactly when
/// each reaches the other.
pub open spec fn are_strong_components(g: GFAdigraph, comps: Seq<Seq<usize>>) -> bool {
    &&& is_partition(g.labels@.len(), comps)
    &&& forall|c: int| 0 <= c < comps.len() ==> #[trigger] comps[c].len() > 0
    &&& forall|c1: int, i1: int, c2: int, i2: int|
        0 <= c1 < comps.len() && 0 <= i1 < comps[c1].len() && 0 <= c2 < comps.len() && 0 <= i2
            < comps[c2].len() ==> (c1 == c2 <==> reaches(g, #[trigger] comps[c1][i1], #[trigger] comps[c2][i2])
            && reaches(g, comps[c2][i2], comps[c1][i1]))
}

pub open spec fn comps_view(v: Vec<Vec<usize>>) -> Seq<Seq<usize>> {
    v@.map_values(|c: Vec<usize>| c@)
}

/// Relies on petgraph::algo::tarjan_scc: it returns the strongly connected
/// components of the graph handed to it, one list of node indices each. The
/// graph built here has nodes `0..n` and one edge per pair.
#[verifier::external_body]
fn tarjan_components(g: &GFAdigraph) -> (r: Vec<Vec<usize>>)
    requires
        g.wf(),
    ensures
        are_strong_components(*g, comps_view(r)),
{
    let mut pg = petgraph::Graph::<(), (), petgraph::Directed, usize>::with_capacity(
        g.labels.len(),
        g.edges.len(),
    );
    g.labels.iter().for_each(|_| {
        pg.add_node(());
    });
    pg.extend_with_edges(g.edges.iter().copied());
    petgraph::algo::tarjan_scc(&pg).into_iter().map(|c| c.into_iter().map(|x| x.index()).collect()).collect()
}

/// The strongly connected components of `graph`, as lists of node positions,
/// in no particular order.
pub fn strong_components(graph: &GFAdigraph) -> (r: Vec<Vec<usize>>)
    requires
        graph.wf(),
    ensures
        are_strong_components(*graph, comps_view(r)),
{
    tarjan_components(graph)
}

/// The components of `comps` with at least `min_size` members, in order.
pub open spec fn large_components(comps: Seq<Seq<usize>>, min_size: usize) -> Seq<Seq<usize>> {
    comps.filter(|c: Seq<usize>| c.len() >= min_size)
}

/// Keeps the components with at least `min_size` members, in order.
pub fn filter_by_size(comps: &Vec<Vec<usize>>, min_size: usize) -> (r: Vec<Vec<usize>>)
    ensures
        comps_view(r) == large_components(comps_view(*comps), min_size),
{
    let ghost all = comps_view(*comps);
    let mut r: Vec<Vec<usize>> = Vec::new();
    let mut i: usize = 0;
    while i < comps.len()
        invariant
            i <= comps@.len(),
            all == comps_view(*comps),
            comps_view(r) == large_components(all.take(i as int), min_size),
        decreases comps@.len() - i,
    {
        let ghost before = comps_view(r);
        assert(all.take(i + 1).drop_last() =~= all.take(i as int));
        assert(all.take(i + 1).last() == all[i as int]);
        proof {
            reveal(Seq::filter);
        }
        assert(all[i as int] == comps@[i as int]@);
        assert(large_components(all.take(i + 1), min_size) == if all[i as int].len() >= min_size {
            large_components(all.take(i as int), min_size).push(all[i as int])
        } else {
            large_components(all.take(i as int), min_size)
        });
        if comps[i].len() >= min_size {
            let c = crate::gfa::copy_names(&comps[i]);
            r.push(c);
            assert(comps_view(r) =~= before.push(c@));
        }
        i += 1;
    }
    assert(all.take(i as int) =~= all);
    r
}

/// `lo` and `hi` bound the segment names of the members of `comp` from one
/// unit outside: `lo + 1` is the least name and `hi - 1` the greatest.
pub open spec fn bounds_of(labels: Seq<usize>, comp: Seq<usize>, lo: int, hi: int) -> bool {
    &&& exists|i: int| 0 <= i < comp.len() && labels[#[trigger] comp[i] as int] == lo + 1
    &&& exists|i: int| 0 <= i < comp.len() && labels[#[trigger] comp[i] as int] == hi - 1
    &&& forall|i: int|
        0 <= i < comp.len() ==> lo + 1 <= #[trigger] labels[comp[i] as int] <= hi - 1
}

/// For each component of `comps` with at least `min_size` members, in order,
/// the pair (least segment name - 1, greatest segment name + 1).
pub fn component_bounds(graph: &GFAdigraph, comps: &Vec<Vec<usize>>, min_size: usize) -> (r: Vec<
    (i128, i128),
>)
    requires
        forall|c: int, i: int|
            0 <= c < comps@.len() && 0 <= i < comps@[c]@.len() ==> #[trigger] comps@[c]@[i]
                < graph.labels@.len(),
        forall|c: int| 0 <= c < comps@.len() ==> #[trigger] comps@[c]@.len() > 0,
    ensures
        r@.len() == large_components(comps_view(*comps), min_size).len(),
        forall|j: int|
            0 <= j < r@.len() ==> bounds_of(
                graph.labels@,
                large_components(comps_view(*comps), min_size)[j],
                #[trigger] r@[j].0 as int,
                r@[j].1 as int,
            ),
{
    let kept = filter_by_size(comps, min_size);
    let ghost kv = comps_view(kept);
    proof {
        assert forall|j: int| 0 <= j < kv.len() implies #[trigger] kv[j].len() > 0 && forall|i: int|
            0 <= i < kv[j].len() ==> #[trigger] kv[j][i] < graph.labels@.len() by {
            comps_view(*comps).lemma_filter_pred(|c: Seq<usize>| c.len() >= min_size, j);
            let c = kv[j];
            assert(comps_view(*comps).filter(|c: Seq<usize>| c.len() >= min_size).contains(c));
            comps_view(*comps).lemma_filter_contains_rev(|c: Seq<usize>| c.len() >= min_size, c);
            let ci = choose|ci: int| 0 <= ci < comps@.len() && #[trigger] comps_view(*comps)[ci] == c;
            assert(comps_view(*comps)[ci] == comps@[ci]@);
        }
    }
    let mut r: Vec<(i128, i128)> = Vec::new();
    let mut j: usize = 0;
    while j < kept.len()
        invariant
            j <= kept@.len(),
            kv == comps_view(kept),
            kv == large_components(comps_view(*comps), min_size),
            forall|a: int| 0 <= a < kv.len() ==> #[trigger] kv[a].len() > 0 && forall|i: int|
                0 <= i < kv[a].len() ==> #[trigger] kv[a][i] < graph.labels@.len(),
            r@.len() == j,
            forall|a: int|
                0 <= a < j ==> bounds_of(graph.labels@, kv[a], #[trigger] r@[a].0 as int, r@[a].1 as int),
        decreases kept@.len() - j,
    {
        let comp = &kept[j];
        assert(kv[j as int] == comp@);
        assert(kv[j as int].len() > 0);
        let mut lo: usize = graph.labels[comp[0]];
        let mut hi: usize = lo;
        let mut i: usize = 1;
        while i < comp.len()
            invariant
                1 <= i <= comp@.len(),
                comp@ == kv[j as int],
                forall|x: int| 0 <= x < comp@.len() ==> #[trigger] comp@[x] < graph.labels@.len(),
                exists|x: int| 0 <= x < i && graph.labels@[#[trigger] comp@[x] as int] == lo,
                exists|x: int| 0 <= x < i && graph.labels@[#[trigger] comp@[x] as int] == hi,
                forall|x: int| 0 <= x < i ==> lo <= #[trigger] graph.labels@[comp@[x] as int] <= hi,
            decreases comp@.len() - i,
        {
            let name = graph.labels[comp[i]];
            if name < lo {
                lo = name;
            }
            if name > hi {
                hi = name;
            }
            assert(graph.labels@[comp@[i as int] as int] == name);
            i += 1;
        }
        r.push((lo as i128 - 1, hi as i128 + 1));
        j += 1;
    }
    r
}

/// Some walk of at least one step returns to where it started.
pub open spec fn has_directed_cycle(g: GFAdigraph) -> bool {
    exists|p: Seq<usize>| p.len() >= 2 && #[trigger] joins(g, p, p[0], p[0])
}

/// Relies on petgraph::algo::is_cyclic_directed: true exactly when the
/// directed graph handed to it has a cycle, a self-loop included. The graph
/// built here has nodes `0..n` and one edge per pair.
#[verifier::external_body]
pub(crate) fn directed_cycle(g: &GFAdigraph) -> (r: bool)
    requires
        g.wf(),
    ensures
        r == has_directed_cycle(*g),
{
    let mut pg = petgraph::Graph::<(), (), petgraph::Directed, usize>::with_capacity(
        g.labels.len(),
        g.edges.len(),
    );
    g.labels.iter().for_each(|_| {
        pg.add_node(());
    });
    pg.extend_with_edges(g.edges.iter().copied());
    petgraph::algo::is_cyclic_directed(&pg)
}

} // verus!
