use vstd::prelude::*;
use crate::gfa::{
    Containment, Gfa, GfaPath, GfaPathView, Link, Segment, SegmentView, copy_bytes, path_views,
    segment_views,
};

verus! {

/// The segment records kept for `names`: those whose name is listed.
pub open spec fn keep_segment(names: Seq<usize>) -> spec_fn(SegmentView) -> bool {
    |s: SegmentView| names.contains(s.name)
}

/// The link records kept for `names`: those whose two ends are listed.
pub open spec fn keep_link(names: Seq<usize>) -> spec_fn(Link) -> bool {
    |l: Link| names.contains(l.from_segment) && names.contains(l.to_segment)
}

/// The containment records kept for `names`: those whose two ends are listed.
pub open spec fn keep_containment(names: Seq<usize>) -> spec_fn(Containment) -> bool {
    |c: Containment| names.contains(c.container_name) && names.contains(c.contained_name)
}

/// The path records kept for `names`: those that pass through a listed segment.
pub open spec fn keep_path(names: Seq<usize>) -> spec_fn(GfaPathView) -> bool {
    |p: GfaPathView| exists|i: int| 0 <= i < p.segment_names.len() && names.contains(#[trigger] p.segment_names[i])
}

fn is_listed(names: &Vec<usize>, x: usize) -> (r: bool)
    ensures
        r == names@.contains(x),
{
    let mut i: usize = 0;
    while i < names.len()
        invariant
            i <= names@.len(),
            forall|j: int| 0 <= j < i ==> names@[j] != x,
        decreases names@.len() - i,
    {
        if names[i] == x {
            return true;
        }
        i += 1;
    }
    false
}

fn passes_through(names: &Vec<usize>, p: &GfaPath) -> (r: bool)
    ensures
        r == keep_path(names@)(p@),
{
    let mut i: usize = 0;
    while i < p.segment_names.len()
        invariant
            i <= p.segment_names@.len(),
            forall|j: int| 0 <= j < i ==> !names@.contains(#[trigger] p.segment_names@[j]),
        decreases p.segment_names@.len() - i,
    {
        if is_listed(names, p.segment_names[i]) {
            assert(p@.segment_names[i as int] == p.segment_names@[i as int]);
            return true;
        }
        i += 1;
    }
    false
}

/// Returns the record set restricted to `segment_names`: the segments that
/// are listed, the links and containments whose two ends are listed, the
/// paths that pass through at least one listed segment, and the header as it
/// is. Record order is kept.
pub fn segments_subgraph(gfa: &Gfa, segment_names: Vec<usize>) -> (r: Gfa)
    ensures
        r.header@ == gfa.header@,
        segment_views(r.segments@) == segment_views(gfa.segments@).filter(
            keep_segment(segment_names@),
        ),
        r.links@ == gfa.links@.filter(keep_link(segment_names@)),
        r.containments@ == gfa.containments@.filter(keep_containment(segment_names@)),
        path_views(r.paths@) == path_views(gfa.paths@).filter(keep_path(segment_names@)),
{
    let ghost names = segment_names@;

    let ghost all_s = segment_views(gfa.segments@);
    let mut segments: Vec<Segment> = Vec::new();
    let mut i: usize = 0;
    while i < gfa.segments.len()
        invariant
            i <= gfa.segments@.len(),
            names == segment_names@,
            all_s == segment_views(gfa.segments@),
            segment_views(segments@) == all_s.take(i as int).filter(keep_segment(names)),
        decreases gfa.segments@.len() - i,
    {
        reveal(Seq::filter);
        assert(all_s.take(i + 1).drop_last() =~= all_s.take(i as int));
        assert(all_s.take(i + 1).last() == gfa.segments@[i as int]@);
        let ghost before = segment_views(segments@);
        if is_listed(&segment_names, gfa.segments[i].name) {
            let s = gfa.segments[i].duplicate();
            segments.push(s);
            assert(segment_views(segments@) =~= before.push(s@));
        }
        i += 1;
    }
    assert(all_s.take(i as int) =~= all_s);

    let mut links: Vec<Link> = Vec::new();
    let mut i: usize = 0;
    while i < gfa.links.len()
        invariant
            i <= gfa.links@.len(),
            names == segment_names@,
            links@ == gfa.links@.take(i as int).filter(keep_link(names)),
        decreases gfa.links@.len() - i,
    {
        reveal(Seq::filter);
        assert(gfa.links@.take(i + 1).drop_last() =~= gfa.links@.take(i as int));
        assert(gfa.links@.take(i + 1).last() == gfa.links@[i as int]);
        let l = gfa.links[i];
        if is_listed(&segment_names, l.from_segment) && is_listed(&segment_names, l.to_segment) {
            links.push(l);
        }
        i += 1;
    }
    assert(gfa.links@.take(i as int) =~= gfa.links@);

    let mut containments: Vec<Containment> = Vec::new();
    let mut i: usize = 0;
    while i < gfa.containments.len()
        invariant
            i <= gfa.containments@.len(),
            names == segment_names@,
            containments@ == gfa.containments@.take(i as int).filter(keep_containment(names)),
        decreases gfa.containments@.len() - i,
    {
        reveal(Seq::filter);
        assert(gfa.containments@.take(i + 1).drop_last() =~= gfa.containments@.take(i as int));
        assert(gfa.containments@.take(i + 1).last() == gfa.containments@[i as int]);
        let c = gfa.containments[i];
        if is_listed(&segment_names, c.container_name) && is_listed(
            &segment_names,
            c.contained_name,
        ) {
            containments.push(c);
        }
        i += 1;
    }
    assert(gfa.containments@.take(i as int) =~= gfa.containments@);

    let ghost all_p = path_views(gfa.paths@);
    let mut paths: Vec<GfaPath> = Vec::new();
    let mut i: usize = 0;
    while i < gfa.paths.len()
        invariant
            i <= gfa.paths@.len(),
            names == segment_names@,
            all_p == path_views(gfa.paths@),
            path_views(paths@) == all_p.take(i as int).filter(keep_path(names)),
        decreases gfa.paths@.len() - i,
    {
        reveal(Seq::filter);
        assert(all_p.take(i + 1).drop_last() =~= all_p.take(i as int));
        assert(all_p.take(i + 1).last() == gfa.paths@[i as int]@);
        let ghost before = path_views(paths@);
        if passes_through(&segment_names, &gfa.paths[i]) {
            let p = gfa.paths[i].duplicate();
            paths.push(p);
            assert(path_views(paths@) =~= before.push(p@));
        }
        i += 1;
    }
    assert(all_p.take(i as int) =~= all_p);

    Gfa { header: copy_bytes(&gfa.header), segments, links, containments, paths }
}

} // verus!
