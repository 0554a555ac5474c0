use vstd::prelude::*;
use crate::graph::GFAdigraph;
use crate::paths::paths_view;

verus! {

/// The coverage of the first stored edge from `u` to `v` at position `k` or
/// later, zero when there is none.
pub open spec fn edge_weight_from(
    g: GFAdigraph,
    cov: Seq<u64>,
    u: usize,
    v: usize,
    k: nat,
) -> nat
    decreases g.edges@.len() - k,
{
    if k >= g.edges@.len() {
        0
    } else if g.edges@[k as int] == (u, v) {
        if k < cov.len() {
            cov[k as int] as nat
        } else {
            0
        }
    } else {
        edge_weight_from(g, cov, u, v, k + 1)
    }
}

/// The coverage of the step from `u` to `v`: that of the first stored edge
/// joining them, where `cov[k]` is the coverage of edge `k`.
pub open spec fn step_weight(g: GFAdigraph, cov: Seq<u64>, u: usize, v: usize) -> nat {
    edge_weight_from(g, cov, u, v, 0)
}

/// The cumulative edge coverage along `p`.
pub open spec fn path_weight(g: GFAdigraph, cov: Seq<u64>, p: Seq<usize>) -> nat
    decreases p.len(),
{
    if p.len() < 2 {
        0
    } else {
        path_weight(g, cov, p.drop_last()) + step_weight(g, cov, p[p.len() - 2], p[p.len() - 1])
    }
}

fn edge_weight(g: &GFAdigraph, cov: &Vec<u64>, u: usize, v: usize) -> (r: u64)
    ensures
        r == step_weight(*g, cov@, u, v),
{
    let mut k: usize = 0;
    while k < g.edges.len()
        invariant
            k <= g.edges@.len(),
            edge_weight_from(*g, cov@, u, v, k as nat) == step_weight(*g, cov@, u, v),
        decreases g.edges@.len() - k,
    {
        let (a, b) = g.edges[k];
        if a == u && b == v {
            if k < cov.len() {
                return cov[k];
            }
            return 0;
        }
        k += 1;
    }
    0
}

proof fn lemma_step_weight_bound(g: GFAdigraph, cov: Seq<u64>, u: usize, v: usize, k: nat)
    ensures
        edge_weight_from(g, cov, u, v, k) <= u64::MAX,
    decreases g.edges@.len() - k,
{
    if k < g.edges@.len() {
        lemma_step_weight_bound(g, cov, u, v, k + 1);
    }
}

fn weight_of(g: &GFAdigraph, cov: &Vec<u64>, p: &Vec<usize>) -> (r: u128)
    ensures
        r == path_weight(*g, cov@, p@),
{
    if p.len() < 2 {
        return 0;
    }
    let mut acc: u128 = 0;
    let mut i: usize = 1;
    while i < p.len()
        invariant
            1 <= i <= p@.len(),
            acc == path_weight(*g, cov@, p@.take(i as int)),
            acc <= (i as int) * (u64::MAX as int),
        decreases p@.len() - i,
    {
        let w = edge_weight(g, cov, p[i - 1], p[i]);
        proof {
            let t = p@.take(i + 1);
            assert(t.drop_last() =~= p@.take(i as int));
            assert(t[t.len() - 2] == p@[i - 1] && t[t.len() - 1] == p@[i as int]);
            assert((i as int) * (u64::MAX as int) + (u64::MAX as int) <= u128::MAX) by (
            nonlinear_arith)
                requires
                    i < 0x1_0000_0000_0000_0000int,
            ;
            assert((i as int) * (u64::MAX as int) + (u64::MAX as int) == (i + 1) * (
            u64::MAX as int)) by (nonlinear_arith);
        }
        acc = acc + w as u128;
        i += 1;
    }
    assert(p@.take(i as int) =~= p@);
    acc
}

/// One of the paths of highest cumulative edge coverage, where `edge_coverage[k]`
/// is the coverage of edge `k`; `None` when there are no paths. When several
/// paths share the highest coverage, the first of them is returned.
pub fn best_path(graph: &GFAdigraph, paths: &Vec<Vec<usize>>, edge_coverage: &Vec<u64>) -> (r:
    Option<Vec<usize>>)
    ensures
        r is None <==> paths@.len() == 0,
        r matches Some(p) ==> paths_view(*paths).contains(p@) && forall|j: int|
            0 <= j < paths@.len() ==> path_weight(*graph, edge_coverage@, #[trigger] paths@[j]@)
                <= path_weight(*graph, edge_coverage@, p@),
{
    if paths.len() == 0 {
        return None;
    }
    let mut best: usize = 0;
    let mut best_weight = weight_of(graph, edge_coverage, &paths[0]);
    let mut j: usize = 1;
    while j < paths.len()
        invariant
            1 <= j <= paths@.len(),
            best < paths@.len(),
            best_weight == path_weight(*graph, edge_coverage@, paths@[best as int]@),
            forall|a: int|
                0 <= a < j ==> path_weight(*graph, edge_coverage@, #[trigger] paths@[a]@)
                    <= best_weight,
        decreases paths@.len() - j,
    {
        let w = weight_of(graph, edge_coverage, &paths[j]);
        if w > best_weight {
            best = j;
            best_weight = w;
        }
        j += 1;
    }
    let p = crate::gfa::copy_names(&paths[best]);
    assert(paths_view(*paths)[best as int] == p@);
    Some(p)
}

} // verus!
