use vstd::prelude::*;
use crate::gfa::{Gfa, SegmentView, copy_names, segment_names, segment_views};
use crate::graph::{GFAdigraph, GraphError, graph_of, into_digraph, links_resolve};
use crate::scc::{directed_cycle, has_directed_cycle};

verus! {

/// The genomes that candidates are extracted for.
#[derive(PartialEq, Eq, Clone, Copy, Debug)]
pub enum GenomeType {
    /// The mitochondrial genome
    Mitochondria,
    /// The chloroplast/plastid genome
    Chloroplast,
    /// Statistics only, no extraction
    NoExtraction,
}

/// A non-negative rational number `num / den`.
#[derive(Clone, Copy, PartialEq, Eq, Debug)]
pub struct Fraction {
    pub num: u64,
    pub den: u64,
}

impl Fraction {
    pub open spec fn wf(&self) -> bool {
        self.den > 0
    }
}

/// `a < b` as rational numbers with positive denominators.
pub open spec fn frac_lt(a: Fraction, b: Fraction) -> bool {
    (a.num as int) * (b.den as int) < (b.num as int) * (a.den as int)
}

fn less_than(a: Fraction, b: Fraction) -> (r: bool)
    ensures
        r == frac_lt(a, b),
{
    let x: u128 = a.num as u128;
    let y: u128 = b.den as u128;
    let z: u128 = b.num as u128;
    let w: u128 = a.den as u128;
    proof {
        lemma_u64_product(x, y);
        lemma_u64_product(z, w);
    }
    x * y < z * w
}

proof fn lemma_u64_product(x: u128, y: u128)
    requires
        x <= u64::MAX,
        y <= u64::MAX,
    ensures
        x * y <= u128::MAX,
{
    assert(x * y <= u64::MAX as int * u64::MAX as int) by (nonlinear_arith)
        requires
            x <= u64::MAX,
            y <= u64::MAX,
    ;
}

/// The statistics of one subgraph.
pub struct Stat {
    /// Position of the subgraph among those analysed.
    pub index: usize,
    /// GC content: GC bases over all bases.
    pub gc: Fraction,
    /// The node count of the subgraph.
    pub node_count: usize,
    /// The edge count of the subgraph.
    pub edge_count: usize,
    /// Mean segment coverage.
    pub cov: Fraction,
    /// Names of the segments.
    pub segments: Vec<usize>,
    /// Total sequence length of all the segments.
    pub total_sequence_length: usize,
    /// Whether the subgraph has a directed cycle.
    pub is_circular: bool,
}

pub struct StatView {
    pub gc: Fraction,
    pub segments: Seq<usize>,
    pub total_sequence_length: usize,
}

impl View for Stat {
    type V = StatView;

    open spec fn view(&self) -> StatView {
        StatView {
            gc: self.gc,
            segments: self.segments@,
            total_sequence_length: self.total_sequence_length,
        }
    }
}

/// A collection of `Stat`.
pub struct Stats(pub Vec<Stat>);

/// Why no candidate could be extracted.
#[derive(PartialEq, Eq, Clone, Copy, Debug)]
pub enum StatsError {
    /// No subgraph lies within the bounds; `size_upper` is the padded bound.
    NoCandidatesInBounds {
        size_lower: usize,
        size_upper: u128,
        gc_lower: Fraction,
        gc_upper: Fraction,
    },
    /// There were no subgraphs at all.
    EmptyInput,
}

/// Added to the upper size bound, to allow for the overlaps between segments.
pub const SEQ_LEN_PADDING: u128 = 20000;

/// `s` lies strictly within the GC bounds and strictly within the size
/// bounds, the upper size bound padded by `SEQ_LEN_PADDING`.
pub open spec fn in_bounds(
    s: StatView,
    size_lower: usize,
    size_upper: usize,
    gc_lower: Fraction,
    gc_upper: Fraction,
) -> bool {
    &&& frac_lt(gc_lower, s.gc)
    &&& frac_lt(s.gc, gc_upper)
    &&& size_lower < s.total_sequence_length
    &&& s.total_sequence_length < size_upper + SEQ_LEN_PADDING
}

/// The segment names of the stats within bounds, concatenated in order.
pub open spec fn candidate_segments(
    stats: Seq<StatView>,
    size_lower: usize,
    size_upper: usize,
    gc_lower: Fraction,
    gc_upper: Fraction,
) -> Seq<usize>
    decreases stats.len(),
{
    if stats.len() == 0 {
        seq![]
    } else {
        let rest = candidate_segments(stats.drop_last(), size_lower, size_upper, gc_lower, gc_upper);
        if in_bounds(stats.last(), size_lower, size_upper, gc_lower, gc_upper) {
            rest + stats.last().segments
        } else {
            rest
        }
    }
}

/// Some stat of `stats` lies within bounds.
pub open spec fn any_in_bounds(
    stats: Seq<StatView>,
    size_lower: usize,
    size_upper: usize,
    gc_lower: Fraction,
    gc_upper: Fraction,
) -> bool {
    exists|i: int|
        0 <= i < stats.len() && in_bounds(
            #[trigger] stats[i],
            size_lower,
            size_upper,
            gc_lower,
            gc_upper,
        )
}

pub open spec fn stat_views(s: Seq<Stat>) -> Seq<StatView> {
    s.map_values(|x: Stat| x@)
}

impl Stats {
    /// Adds a `Stat` at the end.
    pub fn push(&mut self, stat: Stat)
        ensures
            final(self).0@ == old(self).0@.push(stat),
    {
        self.0.push(stat);
    }

    /// The segment names of the subgraphs whose GC content and total length
    /// lie strictly within the bounds, the upper length bound padded by
    /// `SEQ_LEN_PADDING`. Fails with `EmptyInput` when there are no stats,
    /// and with `NoCandidatesInBounds` when none lies within the bounds.
    pub fn extract_organelle(
        &self,
        size_lower: usize,
        size_upper: usize,
        gc_lower: Fraction,
        gc_upper: Fraction,
    ) -> (r: Result<Vec<usize>, StatsError>)
        ensures
            self.0@.len() == 0 <==> r == Err::<Vec<usize>, StatsError>(StatsError::EmptyInput),
            (self.0@.len() > 0 && !any_in_bounds(
                stat_views(self.0@),
                size_lower,
                size_upper,
                gc_lower,
                gc_upper,
            )) <==> r == Err::<Vec<usize>, StatsError>(
                StatsError::NoCandidatesInBounds {
                    size_lower,
                    size_upper: (size_upper + SEQ_LEN_PADDING) as u128,
                    gc_lower,
                    gc_upper,
                },
            ),
            r is Ok <==> (self.0@.len() > 0 && any_in_bounds(
                stat_views(self.0@),
                size_lower,
                size_upper,
                gc_lower,
                gc_upper,
            )),
            r matches Ok(v) ==> v@ == candidate_segments(
                stat_views(self.0@),
                size_lower,
                size_upper,
                gc_lower,
                gc_upper,
            ),
    {
        let padded: u128 = size_upper as u128 + SEQ_LEN_PADDING;
        let stats = &self.0;
        if stats.len() == 0 {
            return Err(StatsError::EmptyInput);
        }
        let ghost all = stat_views(stats@);
        let mut out: Vec<usize> = Vec::new();
        let mut found = false;
        let mut i: usize = 0;
        while i < stats.len()
            invariant
                i <= stats@.len(),
                all == stat_views(stats@),
                padded == size_upper + SEQ_LEN_PADDING,
                out@ == candidate_segments(all.take(i as int), size_lower, size_upper, gc_lower, gc_upper),
                found == any_in_bounds(all.take(i as int), size_lower, size_upper, gc_lower, gc_upper),
            decreases stats@.len() - i,
        {
            let s = &stats[i];
            let ghost t = all.take(i + 1);
            assert(t.drop_last() =~= all.take(i as int));
            assert(t.last() == s@);
            let keep = less_than(gc_lower, s.gc) && less_than(s.gc, gc_upper) && size_lower
                < s.total_sequence_length && (s.total_sequence_length as u128) < padded;
            if keep {
                let segs = copy_names(&s.segments);
                let mut j: usize = 0;
                let ghost before = out@;
                while j < segs.len()
                    invariant
                        j <= segs@.len(),
                        out@ == before + segs@.take(j as int),
                    decreases segs@.len() - j,
                {
                    out.push(segs[j]);
                    j += 1;
                    assert(out@ =~= before + segs@.take(j as int));
                }
                assert(segs@.take(j as int) =~= segs@);
                found = true;
                assert(t[i as int] == s@);
            }
            proof {
                if any_in_bounds(t, size_lower, size_upper, gc_lower, gc_upper) && !keep {
                    let w = choose|w: int| 0 <= w < t.len() && in_bounds(
                        #[trigger] t[w],
                        size_lower,
                        size_upper,
                        gc_lower,
                        gc_upper,
                    );
                    assert(all.take(i as int)[w] == t[w]);
                }
                if found && !keep {
                    let w = choose|w: int| 0 <= w < i && in_bounds(
                        #[trigger] all.take(i as int)[w],
                        size_lower,
                        size_upper,
                        gc_lower,
                        gc_upper,
                    );
                    assert(all.take(i as int)[w] == t[w]);
                }
                if found && keep {
                    assert(t[i as int] == s@);
                }
            }
            i += 1;
        }
        assert(all.take(i as int) =~= all);
        if !found {
            return Err(
                StatsError::NoCandidatesInBounds {
                    size_lower,
                    size_upper: padded,
                    gc_lower,
                    gc_upper,
                },
            );
        }
        Ok(out)
    }
}

/// The upper size bound is padded by exactly `SEQ_LEN_PADDING`: with
/// `size_upper = u`, a stat otherwise within bounds is accepted at length
/// `u + 19999` and rejected at length `u + 20001`.
pub proof fn lemma_size_padding(
    s: StatView,
    size_lower: usize,
    u: usize,
    gc_lower: Fraction,
    gc_upper: Fraction,
)
    requires
        frac_lt(gc_lower, s.gc),
        frac_lt(s.gc, gc_upper),
        size_lower < s.total_sequence_length,
    ensures
        s.total_sequence_length == u + 19999 ==> candidate_segments(
            seq![s],
            size_lower,
            u,
            gc_lower,
            gc_upper,
        ) == s.segments && any_in_bounds(seq![s], size_lower, u, gc_lower, gc_upper),
        s.total_sequence_length == u + 20001 ==> !any_in_bounds(
            seq![s],
            size_lower,
            u,
            gc_lower,
            gc_upper,
        ),
{
    let one = seq![s];
    assert(one.drop_last() =~= Seq::<StatView>::empty());
    assert(one.last() == s);
    assert(Seq::<usize>::empty() + s.segments =~= s.segments);
    assert(candidate_segments(one.drop_last(), size_lower, u, gc_lower, gc_upper) == Seq::<
        usize,
    >::empty());
    if s.total_sequence_length == u + 19999 {
        assert(in_bounds(s, size_lower, u, gc_lower, gc_upper));
        assert(in_bounds(one[0], size_lower, u, gc_lower, gc_upper));
    }
    if s.total_sequence_length == u + 20001 {
        assert forall|i: int| 0 <= i < one.len() implies !in_bounds(
            #[trigger] one[i],
            size_lower,
            u,
            gc_lower,
            gc_upper,
        ) by {
            assert(one[i] == s);
        }
    }
}

/// `b` is a G or a C, in either case.
pub open spec fn is_gc(b: u8) -> bool {
    b == 71 || b == 67 || b == 103 || b == 99
}

/// The number of G and C bases in `s`.
pub open spec fn gc_bases(s: Seq<u8>) -> nat
    decreases s.len(),
{
    if s.len() == 0 {
        0
    } else {
        gc_bases(s.drop_last()) + if is_gc(s.last()) {
            1nat
        } else {
            0nat
        }
    }
}

/// The summed sequence length of the segments.
pub open spec fn total_length(segs: Seq<SegmentView>) -> nat
    decreases segs.len(),
{
    if segs.len() == 0 {
        0
    } else {
        total_length(segs.drop_last()) + segs.last().sequence.len()
    }
}

/// The summed number of G and C bases of the segments.
pub open spec fn total_gc(segs: Seq<SegmentView>) -> nat
    decreases segs.len(),
{
    if segs.len() == 0 {
        0
    } else {
        total_gc(segs.drop_last()) + gc_bases(segs.last().sequence)
    }
}

/// The summed coverage of the segments.
pub open spec fn total_coverage(segs: Seq<SegmentView>) -> nat
    decreases segs.len(),
{
    if segs.len() == 0 {
        0
    } else {
        total_coverage(segs.drop_last()) + segs.last().coverage as nat
    }
}

proof fn lemma_gc_bases_bound(s: Seq<u8>)
    ensures
        gc_bases(s) <= s.len(),
    decreases s.len(),
{
    if s.len() > 0 {
        lemma_gc_bases_bound(s.drop_last());
    }
}

proof fn lemma_total_gc_bound(segs: Seq<SegmentView>)
    ensures
        total_gc(segs) <= total_length(segs),
    decreases segs.len(),
{
    if segs.len() > 0 {
        lemma_total_gc_bound(segs.drop_last());
        lemma_gc_bases_bound(segs.last().sequence);
    }
}

fn count_gc(s: &Vec<u8>) -> (r: usize)
    ensures
        r == gc_bases(s@),
{
    let mut n: usize = 0;
    let mut i: usize = 0;
    while i < s.len()
        invariant
            i <= s@.len(),
            n == gc_bases(s@.take(i as int)),
        decreases s@.len() - i,
    {
        proof {
            assert(s@.take(i + 1).drop_last() =~= s@.take(i as int));
            lemma_gc_bases_bound(s@.take(i as int));
        }
        let b = s[i];
        if b == 71 || b == 67 || b == 103 || b == 99 {
            n += 1;
        }
        i += 1;
    }
    assert(s@.take(i as int) =~= s@);
    n
}

/// `f` is `num / den` when `den` is positive, zero otherwise.
pub open spec fn ratio_or_zero(f: Fraction, num: nat, den: nat) -> bool {
    if den == 0 {
        f == Fraction { num: 0, den: 1 }
    } else {
        f.num == num && f.den == den
    }
}

/// Computes the statistics of a record set: segment and link counts, total
/// sequence length, GC content over all bases, mean segment coverage, the
/// segment names, and whether its directed graph has a cycle. Fails where a
/// link names an undeclared segment.
pub fn compute_stat(index: usize, subgraph: &Gfa) -> (r: Result<Stat, GraphError>)
    requires
        total_length(segment_views(subgraph.segments@)) <= usize::MAX,
        total_coverage(segment_views(subgraph.segments@)) <= u64::MAX,
    ensures
        r.is_ok() <==> links_resolve(segment_names(subgraph.segments@), subgraph.links@),
        r matches Ok(s) ==> {
            let segs = segment_views(subgraph.segments@);
            &&& s.index == index
            &&& s.node_count == subgraph.segments@.len()
            &&& s.edge_count == subgraph.links@.len()
            &&& s.segments@ == segment_names(subgraph.segments@)
            &&& s.total_sequence_length == total_length(segs)
            &&& ratio_or_zero(s.gc, total_gc(segs), total_length(segs))
            &&& ratio_or_zero(s.cov, total_coverage(segs), segs.len())
            &&& exists|g: GFAdigraph|
                graph_of(segment_names(subgraph.segments@), subgraph.links@, g) && s.is_circular
                    == has_directed_cycle(g)
        },
{
    let (_, g) = match into_digraph(subgraph) {
        Ok(x) => x,
        Err(e) => {
            return Err(e);
        },
    };
    let is_circular = directed_cycle(&g);
    let ghost segs = segment_views(subgraph.segments@);
    let mut length: usize = 0;
    let mut gc: usize = 0;
    let mut cov: u64 = 0;
    let mut i: usize = 0;
    while i < subgraph.segments.len()
        invariant
            i <= subgraph.segments@.len(),
            segs == segment_views(subgraph.segments@),
            total_length(segs) <= usize::MAX,
            total_coverage(segs) <= u64::MAX,
            length == total_length(segs.take(i as int)),
            gc == total_gc(segs.take(i as int)),
            cov == total_coverage(segs.take(i as int)),
            g.labels@ == segment_names(subgraph.segments@),
        decreases subgraph.segments@.len() - i,
    {
        proof {
            assert(segs.take(i + 1).drop_last() =~= segs.take(i as int));
            assert(segs.take(i + 1).last() == subgraph.segments@[i as int]@);
            lemma_total_prefix(segs, i + 1);
            lemma_total_gc_bound(segs.take(i + 1));
        }
        let seg = &subgraph.segments[i];
        length = length + seg.sequence.len();
        gc = gc + count_gc(&seg.sequence);
        cov = cov + seg.coverage;
        i += 1;
    }
    assert(segs.take(i as int) =~= segs);
    let gc_frac = if length == 0 {
        Fraction { num: 0, den: 1 }
    } else {
        Fraction { num: gc as u64, den: length as u64 }
    };
    let cov_frac = if i == 0 {
        Fraction { num: 0, den: 1 }
    } else {
        Fraction { num: cov, den: i as u64 }
    };
    let names = crate::gfa::copy_names(&g.labels);
    Ok(
        Stat {
            index,
            gc: gc_frac,
            node_count: g.labels.len(),
            edge_count: g.edges.len(),
            cov: cov_frac,
            segments: names,
            total_sequence_length: length,
            is_circular,
        },
    )
}

proof fn lemma_total_prefix(segs: Seq<SegmentView>, i: int)
    requires
        0 <= i <= segs.len(),
    ensures
        total_length(segs.take(i)) <= total_length(segs),
        total_coverage(segs.take(i)) <= total_coverage(segs),
    decreases segs.len() - i,
{
    if i < segs.len() {
        lemma_total_prefix(segs, i + 1);
        assert(segs.take(i + 1).drop_last() =~= segs.take(i));
    } else {
        assert(segs.take(i) =~= segs);
    }
}

} // verus!
