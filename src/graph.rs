use vstd::prelude::*;
use std::collections::HashMap;
use crate::gfa::{Gfa, Link, segment_names};

verus! {

broadcast use vstd::std_specs::hash::group_hash_axioms;

/// A directed graph stored as an arena: node `i` carries the segment name
/// `labels[i]`, and each edge is a pair of node positions. Parallel edges are
/// kept as distinct entries, in insertion order.
pub struct GFAdigraph {
    pub labels: Vec<usize>,
    pub edges: Vec<(usize, usize)>,
}

/// Errors raised while building a graph from records.
#[derive(Debug, PartialEq, Eq)]
pub enum GraphError {
    /// A link names a segment that no segment record declares.
    UnknownSegmentReference(usize),
}

impl GFAdigraph {
    /// Every edge endpoint is a node of the graph.
    pub open spec fn wf(&self) -> bool {
        forall|k: int|
            0 <= k < self.edges@.len() ==> #[trigger] self.edges@[k].0 < self.labels@.len()
                && self.edges@[k].1 < self.labels@.len()
    }

    pub open spec fn num_nodes(&self) -> nat {
        self.labels@.len()
    }

    /// There is an edge from `u` to `v`.
    pub open spec fn has_edge(&self, u: usize, v: usize) -> bool {
        exists|k: int| 0 <= k < self.edges@.len() && #[trigger] self.edges@[k] == (u, v)
    }

    /// The number of nodes.
    pub fn node_count(&self) -> (r: usize)
        ensures
            r == self.labels@.len(),
    {
        self.labels.len()
    }

    /// The number of edges, parallel edges counted separately.
    pub fn edge_count(&self) -> (r: usize)
        ensures
            r == self.edges@.len(),
    {
        self.edges.len()
    }
}

/// `id` is the name of some segment record.
pub open spec fn is_declared(names: Seq<usize>, id: usize) -> bool {
    names.contains(id)
}

/// Both ends of every link are declared segments.
pub open spec fn links_resolve(names: Seq<usize>, links: Seq<Link>) -> bool {
    forall|k: int|
        0 <= k < links.len() ==> is_declared(names, #[trigger] links[k].from_segment)
            && is_declared(names, links[k].to_segment)
}

/// `g` is the graph of the segment names and links: one node per segment in
/// record order, one edge per link in record order, each edge joining nodes
/// that carry the link's two names.
pub open spec fn graph_of(names: Seq<usize>, links: Seq<Link>, g: GFAdigraph) -> bool {
    &&& g.wf()
    &&& g.labels@ == names
    &&& g.edges@.len() == links.len()
    &&& forall|k: int|
        0 <= k < links.len() ==> names[#[trigger] g.edges@[k].0 as int] == links[k].from_segment
            && names[g.edges@[k].1 as int] == links[k].to_segment
}

/// `m` maps each declared name to a node that carries it, and nothing else.
pub open spec fn index_of(names: Seq<usize>, m: Map<usize, usize>) -> bool {
    &&& forall|id: usize| #[trigger] m.contains_key(id) <==> names.contains(id)
    &&& forall|id: usize|
        #[trigger] m.contains_key(id) ==> m[id] < names.len() && names[m[id] as int] == id
}

/// Builds the directed graph of a record set, with the map from segment name
/// to node position. Fails on the first link that names an undeclared segment.
pub fn into_digraph(gfa: &Gfa) -> (r: Result<(HashMap<usize, usize>, GFAdigraph), GraphError>)
    ensures
        r.is_ok() <==> links_resolve(segment_names(gfa.segments@), gfa.links@),
        match r {
            Ok((m, g)) => graph_of(segment_names(gfa.segments@), gfa.links@, g)
                && index_of(segment_names(gfa.segments@), m@),
            Err(GraphError::UnknownSegmentReference(id)) => !is_declared(
                segment_names(gfa.segments@),
                id,
            ) && exists|k: int|
                0 <= k < gfa.links@.len() && (#[trigger] gfa.links@[k].from_segment == id
                    || gfa.links@[k].to_segment == id),
        },
{
    let ghost names = segment_names(gfa.segments@);
    let mut labels: Vec<usize> = Vec::new();
    let mut indices: HashMap<usize, usize> = HashMap::new();
    let mut i: usize = 0;
    while i < gfa.segments.len()
        invariant
            i <= gfa.segments@.len(),
            names == segment_names(gfa.segments@),
            labels@ == names.take(i as int),
            index_of(names.take(i as int), indices@),
        decreases gfa.segments@.len() - i,
    {
        let name = gfa.segments[i].name;
        labels.push(name);
        indices.insert(name, i);
        i += 1;
        proof {
            let t = names.take(i as int);
            assert(t =~= names.take(i - 1).push(name));
            assert forall|id: usize| #[trigger] indices@.contains_key(id) <==> t.contains(id) by {
                if t.contains(id) && id != name {
                    let j = choose|j: int| 0 <= j < t.len() && t[j] == id;
                    assert(names.take(i - 1)[j] == id);
                }
                if names.take(i - 1).contains(id) {
                    let j = choose|j: int| 0 <= j < i - 1 && #[trigger] names.take(i - 1)[j] == id;
                    assert(t[j] == id);
                }
                if id == name {
                    assert(t[i - 1] == id);
                }
            }
        }
        assert(labels@ =~= names.take(i as int));
    }
    assert(names.take(i as int) =~= names);
    let mut edges: Vec<(usize, usize)> = Vec::new();
    let mut k: usize = 0;
    while k < gfa.links.len()
        invariant
            k <= gfa.links@.len(),
            names == segment_names(gfa.segments@),
            labels@ == names,
            index_of(names, indices@),
            links_resolve(names, gfa.links@.take(k as int)),
            graph_of(names, gfa.links@.take(k as int), GFAdigraph { labels, edges }),
        decreases gfa.links@.len() - k,
    {
        let link = gfa.links[k];
        let from = match indices.get(&link.from_segment) {
            Some(x) => *x,
            None => {
                return Err(GraphError::UnknownSegmentReference(link.from_segment));
            },
        };
        let to = match indices.get(&link.to_segment) {
            Some(x) => *x,
            None => {
                return Err(GraphError::UnknownSegmentReference(link.to_segment));
            },
        };
        edges.push((from, to));
        k += 1;
        proof {
            let t = gfa.links@.take(k as int);
            assert(t =~= gfa.links@.take(k - 1).push(link));
            assert forall|j: int| 0 <= j < t.len() implies is_declared(
                names,
                #[trigger] t[j].from_segment,
            ) && is_declared(names, t[j].to_segment) by {
                if j < k - 1 {
                    assert(gfa.links@.take(k - 1)[j] == t[j]);
                }
            }
            let g = GFAdigraph { labels, edges };
            assert forall|j: int| 0 <= j < t.len() implies names[#[trigger] g.edges@[j].0 as int]
                == t[j].from_segment && names[g.edges@[j].1 as int] == t[j].to_segment by {
                if j < k - 1 {
                    assert(gfa.links@.take(k - 1)[j] == t[j]);
                }
            }
        }
    }
    proof {
        assert(gfa.links@.take(k as int) =~= gfa.links@);
    }
    Ok((indices, GFAdigraph { labels, edges }))
}

} // verus!
