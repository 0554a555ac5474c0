use vstd::prelude::*;

verus! {

/// A segment record: an integer name, its sequence, and its read coverage.
pub struct Segment {
    pub name: usize,
    pub sequence: Vec<u8>,
    pub coverage: u64,
}

/// A directed link record between two segments.
#[derive(Clone, Copy, PartialEq, Eq, Debug)]
pub struct Link {
    pub from_segment: usize,
    pub to_segment: usize,
}

/// A containment record: `contained_name` lies inside `container_name`.
#[derive(Clone, Copy, PartialEq, Eq, Debug)]
pub struct Containment {
    pub container_name: usize,
    pub contained_name: usize,
}

/// A path record: a named walk over segment names.
pub struct GfaPath {
    pub path_name: Vec<u8>,
    pub segment_names: Vec<usize>,
}

/// A parsed record set: header, segments, links, containments and paths.
pub struct Gfa {
    pub header: Vec<u8>,
    pub segments: Vec<Segment>,
    pub links: Vec<Link>,
    pub containments: Vec<Containment>,
    pub paths: Vec<GfaPath>,
}

/// The contents of a `Segment`.
pub struct SegmentView {
    pub name: usize,
    pub sequence: Seq<u8>,
    pub coverage: u64,
}

/// The contents of a `GfaPath`.
pub struct GfaPathView {
    pub path_name: Seq<u8>,
    pub segment_names: Seq<usize>,
}

impl View for Segment {
    type V = SegmentView;

    open spec fn view(&self) -> SegmentView {
        SegmentView { name: self.name, sequence: self.sequence@, coverage: self.coverage }
    }
}

impl View for GfaPath {
    type V = GfaPathView;

    open spec fn view(&self) -> GfaPathView {
        GfaPathView { path_name: self.path_name@, segment_names: self.segment_names@ }
    }
}

pub open spec fn segment_views(s: Seq<Segment>) -> Seq<SegmentView> {
    s.map_values(|x: Segment| x@)
}

pub open spec fn path_views(s: Seq<GfaPath>) -> Seq<GfaPathView> {
    s.map_values(|x: GfaPath| x@)
}

/// The names of the segments, in record order.
pub open spec fn segment_names(s: Seq<Segment>) -> Seq<usize> {
    s.map_values(|x: Segment| x.name)
}

/// A fresh copy of a byte vector.
pub fn copy_bytes(v: &Vec<u8>) -> (r: Vec<u8>)
    ensures
        r@ == v@,
{
    let mut r: Vec<u8> = Vec::new();
    let mut i: usize = 0;
    while i < v.len()
        invariant
            i <= v@.len(),
            r@ == v@.take(i as int),
        decreases v@.len() - i,
    {
        r.push(v[i]);
        i += 1;
        assert(r@ =~= v@.take(i as int));
    }
    assert(v@.take(i as int) =~= v@);
    r
}

/// A fresh copy of a list of names.
pub fn copy_names(v: &Vec<usize>) -> (r: Vec<usize>)
    ensures
        r@ == v@,
{
    let mut r: Vec<usize> = Vec::new();
    let mut i: usize = 0;
    while i < v.len()
        invariant
            i <= v@.len(),
            r@ == v@.take(i as int),
        decreases v@.len() - i,
    {
        r.push(v[i]);
        i += 1;
        assert(r@ =~= v@.take(i as int));
    }
    assert(v@.take(i as int) =~= v@);
    r
}

impl Segment {
    /// A fresh copy of the record.
    pub fn duplicate(&self) -> (r: Segment)
        ensures
            r@ == self@,
    {
        Segment { name: self.name, sequence: copy_bytes(&self.sequence), coverage: self.coverage }
    }
}

impl GfaPath {
    /// A fresh copy of the record.
    pub fn duplicate(&self) -> (r: GfaPath)
        ensures
            r@ == self@,
    {
        GfaPath {
            path_name: copy_bytes(&self.path_name),
            segment_names: copy_names(&self.segment_names),
        }
    }
}

} // verus!
